//! The DM5 source: scans of DM5's HTML pages and packed page scripts, and
//! the fixed answers it gives.
use vstd::prelude::*;
use vstd::slice::slice_subrange;
use vstd::string::StringSliceAdditionalSpecFns;
use crate::json_utils::{
    json_string_value, extract_json_string,
    decimal,
    lemma_appended_fail_extend, lemma_appended_start, lemma_appended_then, put_str, same_bytes,
    all_hex, contains_bytes, encode_utf8, extract_json_number, hex_number, json_number_value, splice,
    utf8_encode, appended, escaped, find, find_subslice, is_digit, is_ws, matches_at, matches_at_exec, skip_while, ws_fn,
};
use crate::sources::text::{all_digits, digits_fit, digits_fit_exec, digits_value, parse_decimal, parse_decimal_exec, trim_end, trimmed};
use crate::units::{byte_units, wrote_units};
use crate::json_utils::escape_fn;
use crate::pieces::{
    concat_units, item_units, lemma_units_empty, lemma_units_item_fail, lemma_units_item_ok, lemma_list_written,
    lemma_list_head_fail, list_written, listed, pieces_units, lemma_whole_items_at, whole_items,
    flat, item_unit, joined, joined_written, lemma_flat_empty, lemma_unit_fail, lemma_unit_ok, lemma_item_fail, lemma_item_ok, lemma_joined_empty, pieces_bytes,
    put_item, put_pieces, Outcome, Piece,
};
use crate::fetch::{
    body_text_from, decode_hex4, status_error, unescape_letter, FetchError, BODY_MARKER, OK_MARKER,
};

verus! {

pub const BASE_URL: &'static str = "https://www.dm5.cn";

/// Where a search goes: the listings for an empty query, one manga for
/// `id:` and its id, the site's search otherwise.
pub enum SearchRoute<'a> {
    Listings,
    Manga(&'a [u8]),
    Keyword,
}

/// The route of the search `query`.
pub fn search_route<'a>(query: &'a [u8]) -> (r: SearchRoute<'a>)
    ensures
        query@.len() == 0 ==> r is Listings,
        query@.len() > 0 && crate::sources::bh3::has_prefix(query@, "id:".spec_bytes()) ==> (r matches SearchRoute::Manga(id)
            && id@ == query@.skip(3)),
        query@.len() > 0 && !crate::sources::bh3::has_prefix(query@, "id:".spec_bytes()) ==> r is Keyword,
{
    if query.len() == 0 {
        return SearchRoute::Listings;
    }
    let marker = "id:".as_bytes();
    if crate::sources::bh3::starts_with(query, marker) {
        proof {
            reveal_strlit("id:");
            broadcast use vstd::string::is_ascii_spec_bytes;
            assert(vstd::string::is_ascii("id:"));
            assert(marker@.len() == 3);
        }
        let id = slice_subrange(query, 3, query.len());
        assert(id@ =~= query@.skip(3));
        return SearchRoute::Manga(id);
    }
    SearchRoute::Keyword
}

/// Strips leading and trailing spaces, tabs, CR and LF.
pub fn trim_ascii(bytes: &[u8]) -> (r: &[u8])
    ensures
        r@ == trimmed(bytes@),
{
    let ghost ws = ws_fn();
    let mut start: usize = 0;
    let mut end = bytes.len();
    while start < end && (bytes[start] == 32 || bytes[start] == 9 || bytes[start] == 10
        || bytes[start] == 13)
        invariant
            0 <= start <= end,
            end == bytes@.len(),
            ws == ws_fn(),
            skip_while(bytes@, 0, ws) == skip_while(bytes@, start as int, ws),
        decreases end - start,
    {
        start = start + 1;
    }
    let ghost a = start as int;
    assert(a == skip_while(bytes@, 0, ws_fn()));
    while end > start && (bytes[end - 1] == 32 || bytes[end - 1] == 9 || bytes[end - 1] == 10
        || bytes[end - 1] == 13)
        invariant
            start == a,
            start <= end <= bytes@.len(),
            trim_end(bytes@, a, bytes@.len() as int) == trim_end(bytes@, a, end as int),
        decreases end - start,
    {
        end = end - 1;
    }
    slice_subrange(bytes, start, end)
}

/// Digits of `s` read as a number, other bytes skipped.
pub open spec fn status_digits(s: Seq<u8>) -> nat
    decreases s.len(),
{
    if s.len() == 0 {
        0
    } else if is_digit(s.last()) {
        status_digits(s.drop_last()) * 10 + (s.last() - 48) as nat
    } else {
        status_digits(s.drop_last())
    }
}

/// Reads an HTTP status code from its digits, skipping other bytes.
pub fn parse_status_code(bytes: &[u8]) -> (r: u16)
    requires
        forall|k: int| 0 <= k <= bytes@.len() ==> #[trigger] status_digits(bytes@.take(k)) <= 65535,
    ensures
        r == status_digits(bytes@),
{
    let mut n: u16 = 0;
    let mut i: usize = 0;
    while i < bytes.len()
        invariant
            0 <= i <= bytes@.len(),
            n == status_digits(bytes@.take(i as int)),
            forall|k: int| 0 <= k <= bytes@.len() ==> #[trigger] status_digits(bytes@.take(k)) <= 65535,
        decreases bytes@.len() - i,
    {
        let b = bytes[i];
        assert(bytes@.take(i + 1).drop_last() =~= bytes@.take(i as int));
        assert(status_digits(bytes@.take(i + 1)) <= 65535);
        if b >= 48 && b <= 57 {
            n = n * 10 + (b - 48) as u16;
        }
        i = i + 1;
    }
    assert(bytes@.take(bytes@.len() as int) =~= bytes@);
    n
}

/// Error code and message for a fetch failure.
pub fn fetch_error_code(e: FetchError) -> (r: (&'static str, &'static str))
    ensures
        r.0@ == crate::fetch::fetch_error_text(e).0,
        r.1@ == crate::fetch::fetch_error_text(e).1,
{
    crate::fetch::fetch_error_code(e)
}

/// A non-empty run of decimal digits read as a number.
pub fn parse_usize(bytes: &[u8]) -> (r: Option<usize>)
    requires
        digits_fit(bytes@, usize::MAX as nat),
    ensures
        match r {
            Some(n) => parse_decimal(bytes@) == Some(n as nat),
            None => parse_decimal(bytes@) is None,
        },
{
    parse_decimal_exec(bytes)
}

pub open spec fn is_path_stop(b: u8) -> bool {
    b == 47 || b == 63 || b == 35
}

pub open spec fn not_path_stop_fn() -> spec_fn(u8) -> bool {
    |b: u8| !is_path_stop(b)
}

/// `/manhua-<slug>[/?#...]` with at least ten bytes gives `manhua-<slug>`.
pub open spec fn manga_id_of_href(href: Seq<u8>) -> Option<Seq<u8>> {
    if href.len() < 10 || href[0] != 47 || !matches_at(href, "manhua-".spec_bytes(), 1) {
        None
    } else {
        Some(href.subrange(1, skip_while(href, 1, not_path_stop_fn())))
    }
}

pub fn manga_id_from_href(href: &[u8]) -> (r: Option<&[u8]>)
    ensures
        match r {
            Some(v) => manga_id_of_href(href@) == Some(v@),
            None => manga_id_of_href(href@) is None,
        },
{
    if href.len() < 10 || href[0] != 47 {
        return None;
    }
    let prefix = "manhua-".as_bytes();
    if prefix.len() > href.len() - 1 || !matches_at_exec(href, prefix, 1) {
        proof {
            if prefix@.len() > href@.len() - 1 {
                assert(!matches_at(href@, prefix@, 1));
            }
        }
        return None;
    }
    let ghost stop = not_path_stop_fn();
    let mut end: usize = 1;
    while end < href.len() && href[end] != 47 && href[end] != 63 && href[end] != 35
        invariant
            1 <= end <= href@.len(),
            stop == not_path_stop_fn(),
            skip_while(href@, 1, stop) == skip_while(href@, end as int, stop),
        decreases href@.len() - end,
    {
        end = end + 1;
    }
    Some(slice_subrange(href, 1, end))
}

pub open spec fn digit_fn() -> spec_fn(u8) -> bool {
    |b: u8| is_digit(b)
}

/// `/m<digits>...` gives the digits.
pub open spec fn chapter_id_of_href(href: Seq<u8>) -> Option<Seq<u8>> {
    if href.len() < 4 || href[0] != 47 || href[1] != 109 {
        None
    } else {
        let end = skip_while(href, 2, digit_fn());
        if end == 2 {
            None
        } else {
            Some(href.subrange(2, end))
        }
    }
}

pub fn chapter_id_from_href(href: &[u8]) -> (r: Option<&[u8]>)
    ensures
        match r {
            Some(v) => chapter_id_of_href(href@) == Some(v@),
            None => chapter_id_of_href(href@) is None,
        },
{
    if href.len() < 4 || href[0] != 47 || href[1] != 109 {
        return None;
    }
    let ghost dg = digit_fn();
    let mut end: usize = 2;
    while end < href.len() && href[end] >= 48 && href[end] <= 57
        invariant
            2 <= end <= href@.len(),
            dg == digit_fn(),
            skip_while(href@, 2, dg) == skip_while(href@, end as int, dg),
        decreases href@.len() - end,
    {
        end = end + 1;
    }
    if end == 2 {
        None
    } else {
        Some(slice_subrange(href, 2, end))
    }
}

pub open spec fn not_byte_fn(q: u8) -> spec_fn(u8) -> bool {
    |b: u8| b != q
}

/// The quoted value of the first `attr` in `tag`: `attr`, optional
/// whitespace, `=`, optional whitespace, then a value in double or single
/// quotes.
pub open spec fn attr_value_of(tag: Seq<u8>, attr: Seq<u8>) -> Option<Seq<u8>> {
    match find(tag, attr) {
        None => None,
        Some(pos) => {
            let i = skip_while(tag, pos + attr.len(), ws_fn());
            if i >= tag.len() || tag[i] != 61 {
                None
            } else {
                let j = skip_while(tag, i + 1, ws_fn());
                if j >= tag.len() || (tag[j] != 34 && tag[j] != 39) {
                    None
                } else {
                    let e = skip_while(tag, j + 1, not_byte_fn(tag[j]));
                    if e >= tag.len() {
                        None
                    } else {
                        Some(tag.subrange(j + 1, e))
                    }
                }
            }
        },
    }
}

pub fn attr_value<'a>(tag: &'a [u8], attr: &[u8]) -> (r: Option<&'a [u8]>)
    ensures
        match r {
            Some(v) => attr_value_of(tag@, attr@) == Some(v@),
            None => attr_value_of(tag@, attr@) is None,
        },
{
    let pos = match find_subslice(tag, attr) {
        Some(p) => p,
        None => return None,
    };
    assert(pos + attr.len() <= tag.len());
    let ghost ws = ws_fn();
    let mut i: usize = pos + attr.len();
    let ghost i0 = i as int;
    while i < tag.len() && (tag[i] == 32 || tag[i] == 9 || tag[i] == 10 || tag[i] == 13)
        invariant
            i0 <= i <= tag@.len(),
            ws == ws_fn(),
            skip_while(tag@, i0, ws) == skip_while(tag@, i as int, ws),
        decreases tag@.len() - i,
    {
        i = i + 1;
    }
    if i >= tag.len() || tag[i] != 61 {
        return None;
    }
    i = i + 1;
    let ghost i1 = i as int;
    while i < tag.len() && (tag[i] == 32 || tag[i] == 9 || tag[i] == 10 || tag[i] == 13)
        invariant
            i1 <= i <= tag@.len(),
            ws == ws_fn(),
            skip_while(tag@, i1, ws) == skip_while(tag@, i as int, ws),
        decreases tag@.len() - i,
    {
        i = i + 1;
    }
    if i >= tag.len() {
        return None;
    }
    let quote = tag[i];
    if quote != 34 && quote != 39 {
        return None;
    }
    i = i + 1;
    let start = i;
    let ghost nq = not_byte_fn(quote);
    while i < tag.len() && tag[i] != quote
        invariant
            start <= i <= tag@.len(),
            nq == not_byte_fn(quote),
            skip_while(tag@, start as int, nq) == skip_while(tag@, i as int, nq),
        decreases tag@.len() - i,
    {
        i = i + 1;
    }
    if i >= tag.len() {
        None
    } else {
        Some(slice_subrange(tag, start, i))
    }
}

/// Whether the scan is inside a tag after reading `s` (from outside one).
pub open spec fn in_tag_after(s: Seq<u8>) -> bool
    decreases s.len(),
{
    if s.len() == 0 {
        false
    } else if s.last() == 60 {
        true
    } else if s.last() == 62 {
        false
    } else {
        in_tag_after(s.drop_last())
    }
}

/// The bytes of `s` outside `<...>` tags, the brackets dropped too.
pub open spec fn untagged(s: Seq<u8>) -> Seq<u8>
    decreases s.len(),
{
    if s.len() == 0 {
        Seq::empty()
    } else {
        let prev = untagged(s.drop_last());
        let b = s.last();
        if b == 60 || b == 62 || in_tag_after(s.drop_last()) {
            prev
        } else {
            prev.push(b)
        }
    }
}

pub open spec fn min(a: int, b: int) -> int {
    if a <= b {
        a
    } else {
        b
    }
}

/// Copies the text of `src` outside tags into `out` (as much as fits) and
/// returns it trimmed; `out` beyond the copied text is unchanged.
pub fn strip_tags_to<'a>(src: &[u8], out: &'a mut [u8]) -> (r: &'a [u8])
    ensures
        final(out)@.len() == old(out)@.len(),
        final(out)@.take(min(untagged(src@).len() as int, old(out)@.len() as int)) == untagged(
            src@,
        ).take(min(untagged(src@).len() as int, old(out)@.len() as int)),
        final(out)@.skip(min(untagged(src@).len() as int, old(out)@.len() as int)) == old(
            out,
        )@.skip(min(untagged(src@).len() as int, old(out)@.len() as int)),
        r@ == trimmed(
            untagged(src@).take(min(untagged(src@).len() as int, old(out)@.len() as int)),
        ),
{
    let ghost o0 = out@;
    let mut c: usize = 0;
    let mut in_tag = false;
    let mut i: usize = 0;
    while i < src.len()
        invariant
            0 <= i <= src@.len(),
            out@.len() == o0.len(),
            o0 == old(out)@,
            in_tag == in_tag_after(src@.take(i as int)),
            c == min(untagged(src@.take(i as int)).len() as int, o0.len() as int),
            out@.take(c as int) == untagged(src@.take(i as int)).take(c as int),
            out@.skip(c as int) == o0.skip(c as int),
        decreases src@.len() - i,
    {
        let b = src[i];
        let ghost pre = src@.take(i as int);
        assert(src@.take(i + 1).drop_last() =~= pre);
        assert(src@.take(i + 1).last() == b);
        if b == 60 {
            in_tag = true;
        } else if b == 62 {
            in_tag = false;
        } else if !in_tag && c < out.len() {
            let ghost before = out@;
            out[c] = b;
            proof {
                let u = untagged(src@.take(i + 1));
                assert(u == untagged(pre).push(b));
                assert(untagged(pre).take(c as int) =~= untagged(pre));
                assert(before.take(c as int) == untagged(pre));
                assert(u.take(c + 1) =~= u);
                assert(out@.take(c + 1) =~= u.take(c + 1)) by {
                    assert forall|k: int| 0 <= k < c implies out@[k] == before.take(c as int)[k] by {}
                }
                assert(out@.skip(c + 1) =~= o0.skip(c + 1)) by {
                    assert(before.skip(c + 1) =~= before.skip(c as int).skip(1));
                    assert(o0.skip(c + 1) =~= o0.skip(c as int).skip(1));
                }
            }
            c = c + 1;
        } else if !in_tag {
            proof {
                let u = untagged(src@.take(i + 1));
                assert(u == untagged(pre).push(b));
                assert(u.take(c as int) =~= untagged(pre).take(c as int));
            }
        }
        i = i + 1;
    }
    assert(src@.take(src@.len() as int) =~= src@);
    let o: &'a [u8] = out;
    trim_ascii(slice_subrange(o, 0, c))
}

/// Last position where the non-empty `n` occurs in `h` before `e`.
pub open spec fn rfind_before(h: Seq<u8>, n: Seq<u8>, e: int) -> Option<int>
    decreases e,
{
    if n.len() == 0 || e <= 0 {
        None
    } else if matches_at(h, n, e - 1) {
        Some(e - 1)
    } else {
        rfind_before(h, n, e - 1)
    }
}

pub open spec fn rfind(h: Seq<u8>, n: Seq<u8>) -> Option<int> {
    rfind_before(h, n, h.len() as int + 1)
}

/// Position of the last occurrence of the non-empty `needle`.
pub fn find_last_subslice(haystack: &[u8], needle: &[u8]) -> (r: Option<usize>)
    ensures
        match r {
            Some(i) => rfind(haystack@, needle@) == Some(i as int),
            None => rfind(haystack@, needle@) is None,
        },
        match r {
            Some(i) => matches_at(haystack@, needle@, i as int),
            None => true,
        },
{
    proof {
        lemma_rfind_matches(haystack@, needle@, haystack@.len() as int + 1);
    }
    if needle.len() == 0 || haystack.len() < needle.len() {
        proof {
            lemma_rfind_none_short(haystack@, needle@, haystack@.len() as int + 1);
        }
        return None;
    }
    let mut result: Option<usize> = None;
    let mut pos: usize = 0;
    while pos <= haystack.len() - needle.len()
        invariant
            needle@.len() > 0,
            haystack@.len() >= needle@.len(),
            0 <= pos <= haystack@.len() - needle@.len() + 1,
            match result {
                Some(i) => rfind_before(haystack@, needle@, pos as int) == Some(i as int),
                None => rfind_before(haystack@, needle@, pos as int) is None,
            },
        decreases haystack@.len() - needle@.len() + 1 - pos,
    {
        if matches_at_exec(haystack, needle, pos) {
            result = Some(pos);
        }
        pos = pos + 1;
    }
    proof {
        lemma_rfind_tail(haystack@, needle@, pos as int, haystack@.len() as int + 1);
    }
    result
}

/// What `rfind_before` finds is a match.
pub proof fn lemma_rfind_matches(h: Seq<u8>, n: Seq<u8>, e: int)
    ensures
        match rfind_before(h, n, e) {
            Some(p) => matches_at(h, n, p) && p < e,
            None => true,
        },
    decreases e,
{
    if n.len() > 0 && e > 0 && !matches_at(h, n, e - 1) {
        lemma_rfind_matches(h, n, e - 1);
    }
}

proof fn lemma_rfind_none_short(h: Seq<u8>, n: Seq<u8>, e: int)
    requires
        n.len() == 0 || h.len() < n.len(),
    ensures
        rfind_before(h, n, e) is None,
    decreases e,
{
    if n.len() > 0 && e > 0 {
        lemma_rfind_none_short(h, n, e - 1);
    }
}

/// No match starts at or after `p` (beyond the last possible start), so
/// searching before `e >= p` is searching before `p`.
proof fn lemma_rfind_tail(h: Seq<u8>, n: Seq<u8>, p: int, e: int)
    requires
        n.len() > 0,
        p == h.len() - n.len() + 1,
        p <= e,
    ensures
        rfind_before(h, n, e) == rfind_before(h, n, p),
    decreases e - p,
{
    if e > p {
        assert(!matches_at(h, n, e - 1));
        lemma_rfind_tail(h, n, p, e - 1);
    }
}

/// Nearest position at or before `pos` (but above 0) holding `needle`.
pub open spec fn find_back_of(bytes: Seq<u8>, pos: int, needle: u8) -> Option<int>
    decreases pos,
{
    if pos <= 0 {
        None
    } else if bytes[pos] == needle {
        Some(pos)
    } else {
        find_back_of(bytes, pos - 1, needle)
    }
}

/// Walks back from `pos` looking for `needle`; position 0 is never looked at.
pub fn find_back(bytes: &[u8], pos: usize, needle: u8) -> (r: Option<usize>)
    requires
        pos == 0 || pos < bytes@.len(),
    ensures
        match r {
            Some(i) => find_back_of(bytes@, pos as int, needle) == Some(i as int),
            None => find_back_of(bytes@, pos as int, needle) is None,
        },
{
    let mut p = pos;
    while p > 0
        invariant
            p <= pos,
            pos == 0 || pos < bytes@.len(),
            find_back_of(bytes@, pos as int, needle) == find_back_of(bytes@, p as int, needle),
        decreases p,
    {
        if bytes[p] == needle {
            return Some(p);
        }
        p = p - 1;
    }
    None
}

pub open spec fn non_digit_fn() -> spec_fn(u8) -> bool {
    |b: u8| !is_digit(b)
}

pub open spec fn digit_or_dot_fn() -> spec_fn(u8) -> bool {
    |b: u8| is_digit(b) || b == 46
}

/// The first run of digits and dots that starts with a digit.
pub open spec fn first_number_of(bytes: Seq<u8>) -> Option<Seq<u8>> {
    let i = skip_while(bytes, 0, non_digit_fn());
    if i >= bytes.len() {
        None
    } else {
        Some(bytes.subrange(i, skip_while(bytes, i, digit_or_dot_fn())))
    }
}

proof fn lemma_skip_while_stops(d: Seq<u8>, i: int, f: spec_fn(u8) -> bool)
    requires
        0 <= i <= d.len(),
    ensures
        i <= skip_while(d, i, f) <= d.len(),
        forall|j: int| i <= j < skip_while(d, i, f) ==> f(#[trigger] d[j]),
        skip_while(d, i, f) < d.len() ==> !f(d[skip_while(d, i, f)]),
    decreases d.len() - i,
{
    if i < d.len() && f(d[i]) {
        lemma_skip_while_stops(d, i + 1, f);
    }
}

/// `n` stands in `bytes` at `i`, after no digit, starts with a digit,
/// holds only digits and dots, and is followed by a byte that is neither
/// or by the end.
pub open spec fn whole_run_at(bytes: Seq<u8>, n: Seq<u8>, i: int) -> bool {
    &&& 0 <= i
    &&& i + n.len() <= bytes.len()
    &&& n == bytes.subrange(i, i + n.len())
    &&& n.len() > 0
    &&& is_digit(n[0])
    &&& (forall|j: int| 0 <= j < i ==> !is_digit(#[trigger] bytes[j]))
    &&& (forall|j: int| 0 <= j < n.len() ==> is_digit(#[trigger] n[j]) || n[j] == 46)
    &&& (i + n.len() == bytes.len() || !(is_digit(bytes[i + n.len()]) || bytes[i + n.len()] == 46))
}

/// The number of a title is its whole first run of digits and dots: it
/// starts at the first digit, holds only digits and dots, and is followed
/// by a byte that is neither, or by the end; a title without a digit has
/// none.
pub proof fn law_first_number_is_whole_run(bytes: Seq<u8>)
    ensures
        first_number_of(bytes) is None <==> forall|j: int| 0 <= j < bytes.len() ==> !is_digit(#[trigger] bytes[j]),
        first_number_of(bytes) matches Some(n) ==> exists|i: int| #[trigger] whole_run_at(bytes, n, i),
{
    let i = skip_while(bytes, 0, non_digit_fn());
    lemma_skip_while_stops(bytes, 0, non_digit_fn());
    assert forall|j: int| 0 <= j < i implies !is_digit(#[trigger] bytes[j]) by {
        assert(non_digit_fn()(bytes[j]));
    }
    if i < bytes.len() {
        let e = skip_while(bytes, i, digit_or_dot_fn());
        lemma_skip_while_stops(bytes, i, digit_or_dot_fn());
        assert(is_digit(bytes[i]));
        assert(e > i) by {
            assert(digit_or_dot_fn()(bytes[i]));
        }
        let n = bytes.subrange(i, e);
        assert forall|j: int| 0 <= j < n.len() implies is_digit(#[trigger] n[j]) || n[j] == 46 by {
            assert(n[j] == bytes[i + j]);
            assert(digit_or_dot_fn()(bytes[i + j]));
        }
        assert(n.len() == e - i);
        assert(n[0] == bytes[i]);
        if e < bytes.len() {
            assert(!digit_or_dot_fn()(bytes[e]));
            assert(!(is_digit(bytes[e]) || bytes[e] == 46));
        }
        assert(first_number_of(bytes) == Some(n));
        assert(n == bytes.subrange(i, i + n.len()));
        assert(whole_run_at(bytes, n, i));
        assert(first_number_of(bytes)->0 == n);
        assert(whole_run_at(bytes, first_number_of(bytes)->0, i));
    } else {
        assert forall|j: int| 0 <= j < bytes.len() implies !is_digit(#[trigger] bytes[j]) by {
            assert(non_digit_fn()(bytes[j]));
        }
    }
}

pub fn first_number(bytes: &[u8]) -> (r: Option<&[u8]>)
    ensures
        match r {
            Some(v) => first_number_of(bytes@) == Some(v@),
            None => first_number_of(bytes@) is None,
        },
{
    let ghost nd = non_digit_fn();
    let ghost dd = digit_or_dot_fn();
    let mut i: usize = 0;
    while i < bytes.len() && !(bytes[i] >= 48 && bytes[i] <= 57)
        invariant
            0 <= i <= bytes@.len(),
            nd == non_digit_fn(),
            skip_while(bytes@, 0, nd) == skip_while(bytes@, i as int, nd),
        decreases bytes@.len() - i,
    {
        i = i + 1;
    }
    if i >= bytes.len() {
        return None;
    }
    let start = i;
    while i < bytes.len() && ((bytes[i] >= 48 && bytes[i] <= 57) || bytes[i] == 46)
        invariant
            start <= i <= bytes@.len(),
            dd == digit_or_dot_fn(),
            skip_while(bytes@, start as int, dd) == skip_while(bytes@, i as int, dd),
        decreases bytes@.len() - i,
    {
        i = i + 1;
    }
    Some(slice_subrange(bytes, start, i))
}

pub open spec fn is_word_byte(b: u8) -> bool {
    (48 <= b <= 57) || (97 <= b <= 122) || (65 <= b <= 90) || b == 95
}

/// Letters, digits and underscore.
pub fn is_word(b: u8) -> (r: bool)
    ensures
        r == is_word_byte(b),
{
    (b >= 48 && b <= 57) || (b >= 97 && b <= 122) || (b >= 65 && b <= 90) || b == 95
}

/// Digit value of a byte in the packer's alphabet (0-9, a-z, A-Z), or -1.
pub open spec fn base_digit(b: u8) -> int {
    if 48 <= b <= 57 {
        b - 48
    } else if 97 <= b <= 122 {
        b - 97 + 10
    } else if 65 <= b <= 90 {
        b - 65 + 36
    } else {
        -1
    }
}

/// `s` read in base `base`, or `None` when a byte is not a digit below it.
pub open spec fn base_value(s: Seq<u8>, base: nat) -> Option<nat>
    decreases s.len(),
{
    if s.len() == 0 {
        Some(0)
    } else {
        match base_value(s.drop_last(), base) {
            None => None,
            Some(n) => {
                let v = base_digit(s.last());
                if v < 0 || v >= base {
                    None
                } else {
                    Some(n * base + v as nat)
                }
            },
        }
    }
}

/// Whether a parsed value, if any, fits in a `usize`.
pub open spec fn fits_usize(v: Option<nat>) -> bool {
    match v {
        Some(n) => n <= usize::MAX,
        None => true,
    }
}

/// Reads `bytes` in base `base`; `usize::MAX` when a byte is not a digit
/// below the base.
pub fn parse_base(bytes: &[u8], base: usize) -> (r: usize)
    requires
        forall|k: int|
            0 <= k <= bytes@.len() ==> fits_usize(#[trigger] base_value(bytes@.take(k), base as nat)),
    ensures
        r == match base_value(bytes@, base as nat) {
            Some(v) => v,
            None => usize::MAX as nat,
        },
{
    let mut n: usize = 0;
    let mut i: usize = 0;
    assert(bytes@.take(0) =~= Seq::<u8>::empty());
    while i < bytes.len()
        invariant
            0 <= i <= bytes@.len(),
            base_value(bytes@.take(i as int), base as nat) == Some(n as nat),
            forall|k: int|
                0 <= k <= bytes@.len() ==> fits_usize(#[trigger] base_value(bytes@.take(k), base as nat)),
        decreases bytes@.len() - i,
    {
        let b = bytes[i];
        assert(bytes@.take(i + 1).drop_last() =~= bytes@.take(i as int));
        let v: usize = if b >= 48 && b <= 57 {
            (b - 48) as usize
        } else if b >= 97 && b <= 122 {
            (b - 97 + 10) as usize
        } else if b >= 65 && b <= 90 {
            (b - 65 + 36) as usize
        } else {
            proof {
                lemma_base_value_none_extends(bytes@, base as nat, i + 1);
            }
            return usize::MAX;
        };
        if v >= base {
            proof {
                lemma_base_value_none_extends(bytes@, base as nat, i + 1);
            }
            return usize::MAX;
        }
        assert(base_value(bytes@.take(i + 1), base as nat) == Some((n * base + v) as nat));
        n = n * base + v;
        i = i + 1;
    }
    assert(bytes@.take(bytes@.len() as int) =~= bytes@);
    n
}

/// Once a prefix is not a number in the base, no longer prefix is.
pub proof fn lemma_base_value_none_extends(s: Seq<u8>, base: nat, k: int)
    requires
        0 <= k <= s.len(),
        base_value(s.take(k), base) is None,
    ensures
        base_value(s, base) is None,
    decreases s.len() - k,
{
    if k < s.len() {
        assert(s.take(k + 1).drop_last() =~= s.take(k));
        lemma_base_value_none_extends(s, base, k + 1);
    } else {
        assert(s.take(k) =~= s);
    }
}

/// The text between the first `marker` and the next double quote.
pub open spec fn js_string_of(data: Seq<u8>, marker: Seq<u8>) -> Option<Seq<u8>> {
    match find(data, marker) {
        None => None,
        Some(p) => {
            let st = p + marker.len();
            match find(data.subrange(st, data.len() as int), seq![34u8]) {
                None => None,
                Some(q) => Some(data.subrange(st, st + q)),
            }
        },
    }
}

pub fn extract_js_string<'a>(data: &'a [u8], marker: &[u8]) -> (r: Option<&'a [u8]>)
    ensures
        match r {
            Some(v) => js_string_of(data@, marker@) == Some(v@),
            None => js_string_of(data@, marker@) is None,
        },
{
    let p = match find_subslice(data, marker) {
        Some(p) => p,
        None => return None,
    };
    assert(p + marker.len() <= data.len());
    let start: usize = p + marker.len();
    let rest = slice_subrange(data, start, data.len());
    let quote: [u8; 1] = [34];
    assert(quote@ =~= seq![34u8]);
    let q = match find_subslice(rest, quote.as_slice()) {
        Some(q) => q,
        None => return None,
    };
    assert(q + 1 <= rest@.len());
    let end = q + start;
    let r = slice_subrange(data, start, end);
    assert(r@ =~= data@.subrange(start as int, start + q));
    Some(r)
}

/// The digits right after the first `marker`.
pub open spec fn js_number_of(data: Seq<u8>, marker: Seq<u8>) -> Option<Seq<u8>> {
    match find(data, marker) {
        None => None,
        Some(p) => {
            let st = p + marker.len();
            let e = skip_while(data, st, digit_fn());
            if e > st {
                Some(data.subrange(st, e))
            } else {
                None
            }
        },
    }
}

pub fn extract_js_number<'a>(data: &'a [u8], marker: &[u8]) -> (r: Option<&'a [u8]>)
    ensures
        match r {
            Some(v) => js_number_of(data@, marker@) == Some(v@),
            None => js_number_of(data@, marker@) is None,
        },
{
    let p = match find_subslice(data, marker) {
        Some(p) => p,
        None => return None,
    };
    assert(p + marker.len() <= data.len());
    let start: usize = p + marker.len();
    let ghost dg = digit_fn();
    let mut end = start;
    while end < data.len() && data[end] >= 48 && data[end] <= 57
        invariant
            start <= end <= data@.len(),
            dg == digit_fn(),
            skip_while(data@, start as int, dg) == skip_while(data@, end as int, dg),
        decreases data@.len() - end,
    {
        end = end + 1;
    }
    if end > start {
        Some(slice_subrange(data, start, end))
    } else {
        None
    }
}

/// Whether, decoding a JSON string body from `i` with `n` bytes already
/// written into a buffer of `cap`, every `\u` escape met finds room for
/// three bytes.
pub open spec fn unicode_room(resp: Seq<u8>, i: int, n: int, cap: int) -> bool
    decreases resp.len() - i,
{
    if i < 0 || i >= resp.len() {
        true
    } else if resp[i] == 92 && i + 1 < resp.len() {
        if resp[i + 1] == 117 {
            n + 3 <= cap && (i + 5 >= resp.len() || !all_hex(resp.subrange(i + 2, i + 6))
                || unicode_room(
                resp,
                i + 6,
                n + utf8_encode(hex_number(resp.subrange(i + 2, i + 6)) as u32).len(),
                cap,
            ))
        } else {
            unicode_room(resp, i + 2, n + 1, cap)
        }
    } else if resp[i] == 34 {
        true
    } else {
        unicode_room(resp, i + 1, n + 1, cap)
    }
}

/// Whether a status code number's digits can be read into a `u16`.
pub open spec fn status_fits(resp: Seq<u8>) -> bool {
    match json_number_value(resp, "statusCode".spec_bytes()) {
        Some(code) => forall|k: int|
            0 <= k <= code.len() ==> #[trigger] status_digits(code.take(k)) <= 65535,
        None => true,
    }
}

/// Whether a reply's `statusCode`, if it has one, reads as a 16-bit
/// number digit by digit: the condition [`decode_json_body`] needs.
pub fn reply_status_fits(resp: &[u8]) -> (r: bool)
    ensures
        r == status_fits(resp@),
{
    let code = match crate::json_utils::extract_json_number(resp, "statusCode".as_bytes()) {
        Some(v) => v,
        None => return true,
    };
    let mut n: u32 = 0;
    let mut i: usize = 0;
    while i < code.len()
        invariant
            0 <= i <= code@.len(),
            n == status_digits(code@.take(i as int)),
            json_number_value(resp@, "statusCode".spec_bytes()) == Some(code@),
            forall|k: int| 0 <= k <= i ==> #[trigger] status_digits(code@.take(k)) <= 65535,
        decreases code@.len() - i,
    {
        let b = code[i];
        assert(code@.take(i + 1).drop_last() =~= code@.take(i as int));
        assert(code@.take(i + 1).last() == b);
        if b >= 48 && b <= 57 {
            n = n * 10 + (b - 48) as u32;
        }
        assert(n == status_digits(code@.take(i + 1)));
        if n > 65535 {
            proof {
                let k = i + 1;
                assert(0 <= k <= code@.len());
                let c2 = json_number_value(resp@, "statusCode".spec_bytes()).unwrap();
                assert(c2 == code@);
                assert(status_digits(c2.take(k)) > 65535);
                assert(!status_fits(resp@));
            }
            return false;
        }
        i = i + 1;
    }
    proof {
        assert(code@.take(code@.len() as int) =~= code@);
        assert forall|k: int| 0 <= k <= code@.len() implies #[trigger] status_digits(code@.take(k)) <= 65535 by {
            assert(k <= i);
        }
    }
    true
}

/// What decoding a host reply into a buffer of `cap` bytes yields: as for
/// the shared decoder, except that a `\u` escape also needs room for
/// three bytes where it stands.
pub open spec fn reply_body(resp: Seq<u8>, cap: nat) -> Result<Seq<u8>, FetchError> {
    if !(exists|i: int| matches_at(resp, OK_MARKER.spec_bytes(), i)) {
        match json_number_value(resp, "statusCode".spec_bytes()) {
            Some(code) => Err(status_error(status_digits(code) as int)),
            None => Err(FetchError::Network),
        }
    } else {
        match find(resp, BODY_MARKER.spec_bytes()) {
            None => Err(FetchError::Network),
            Some(p) => {
                let st = p + BODY_MARKER.spec_bytes().len();
                match body_text_from(resp, st) {
                    Some(out) => if out.len() <= cap && unicode_room(resp, st, 0, cap as int) {
                        Ok(out)
                    } else {
                        Err(FetchError::Network)
                    },
                    None => Err(FetchError::Network),
                }
            },
        }
    }
}

/// Decodes the `bodyText` of a host HTTP reply into `dst` and returns its
/// length, or the error the reply stands for.
#[verifier::rlimit(80)]
pub fn decode_json_body(resp: &[u8], dst: &mut [u8]) -> (r: Result<usize, FetchError>)
    requires
        status_fits(resp@),
    ensures
        final(dst)@.len() == old(dst)@.len(),
        match r {
            Ok(n) => n <= old(dst)@.len() && reply_body(resp@, old(dst)@.len()) == Ok::<
                Seq<u8>,
                FetchError,
            >(final(dst)@.take(n as int)) && final(dst)@.skip(n as int) == old(dst)@.skip(n as int),
            Err(e) => reply_body(resp@, old(dst)@.len()) == Err::<Seq<u8>, FetchError>(e),
        },        !(exists|i: int| matches_at(resp@, OK_MARKER.spec_bytes(), i)) || find(resp@, BODY_MARKER.spec_bytes()) is None
            ==> final(dst)@ == old(dst)@,
        (exists|i: int| matches_at(resp@, OK_MARKER.spec_bytes(), i)) ==> (find(resp@, BODY_MARKER.spec_bytes())
            matches Some(p) ==> final(dst)@ == splice(
            old(dst)@,
            0,
            crate::fetch::body_written(resp@, p + BODY_MARKER.spec_bytes().len(), old(dst)@.len() as int, true),
        )),
{
    proof {
        reveal_strlit("\"ok\":true");
    }
    if !contains_bytes(resp, OK_MARKER.as_bytes()) {
        let err = match extract_json_number(resp, "statusCode".as_bytes()) {
            Some(code_bytes) => {
                let code = parse_status_code(code_bytes);
                if code == 404 {
                    FetchError::NotFound
                } else if code == 429 {
                    FetchError::RateLimit
                } else if code >= 400 && code <= 499 {
                    FetchError::ClientError
                } else if code >= 500 && code <= 599 {
                    FetchError::ServerError
                } else {
                    FetchError::Network
                }
            },
            None => FetchError::Network,
        };
        return Err(err);
    }
    let marker = BODY_MARKER.as_bytes();
    let p = match find_subslice(resp, marker) {
        Some(p) => p,
        None => return Err(FetchError::Network),
    };
    assert(p + marker.len() <= resp.len());
    let start: usize = p + marker.len();
    let ghost d0 = dst@;
    let ghost cap = dst@.len() as int;
    let mut i = start;
    let mut out: usize = 0;
    proof {
        assert(dst@.take(0) + crate::fetch::body_written(resp@, start as int, cap, true) =~= crate::fetch::body_written(
            resp@,
            start as int,
            cap,
            true,
        ));
    }
    while i < resp.len()
        invariant
            start <= i <= resp@.len(),
            start == p + BODY_MARKER.spec_bytes().len(),
            find(resp@, BODY_MARKER.spec_bytes()) == Some(p as int),
            exists|k: int| matches_at(resp@, OK_MARKER.spec_bytes(), k),
            d0 == old(dst)@,
            cap == d0.len(),
            dst@.len() == d0.len(),
            out <= dst@.len(),
            dst@.skip(out as int) == d0.skip(out as int),
            body_text_from(resp@, start as int) == match body_text_from(resp@, i as int) {
                Some(rest) => Some(dst@.take(out as int) + rest),
                None => None::<Seq<u8>>,
            },
            unicode_room(resp@, start as int, 0, cap) == unicode_room(resp@, i as int, out as int, cap),
            crate::fetch::body_written(resp@, start as int, cap, true) == dst@.take(out as int)
                + crate::fetch::body_written(resp@, i as int, cap - out, true),
        decreases resp@.len() - i,
    {
        let b = resp[i];
        let ghost before = dst@;
        if b == 92 && i + 1 < resp.len() {
            let next = resp[i + 1];
            if next == 117 {
                if resp.len() < 6 || i > resp.len() - 6 || out > dst.len() || 3 > dst.len() - out {
                    proof {
                        crate::fetch::lemma_prefix_written(d0, dst@, out as int);
                    }
                    return Err(FetchError::Network);
                }
                let hex = slice_subrange(resp, i + 2, i + 6);
                let code = match decode_hex4(hex) {
                    Some(c) => c,
                    None => {
                        proof {
                            crate::fetch::lemma_prefix_written(d0, dst@, out as int);
                        }
                        return Err(FetchError::Network);
                    },
                };
                assert(hex@ == resp@.subrange(i + 2, i + 6));
                let mut encoded: [u8; 4] = [0, 0, 0, 0];
                let len = encode_utf8(code, &mut encoded);
                let mut j: usize = 0;
                while j < len
                    invariant
                        0 <= j <= len <= 3,
                        out + 3 <= dst.len(),
                        dst@.len() == before.len(),
                        encoded@.take(len as int) == utf8_encode(code),
                        dst@ == splice(before, out as int, encoded@.take(j as int)),
                    decreases len - j,
                {
                    dst[out + j] = encoded[j];
                    j = j + 1;
                    assert(dst@ =~= splice(before, out as int, encoded@.take(j as int)));
                }
                proof {
                    let u = utf8_encode(code);
                    assert(dst@.take(out + len) =~= before.take(out as int) + u);
                    assert(dst@.skip(out + len) =~= d0.skip(out + len)) by {
                        assert(dst@.skip(out + len) =~= before.skip(out + len));
                        assert(before.skip(out + len) =~= before.skip(out as int).skip(len as int));
                        assert(d0.skip(out + len) =~= d0.skip(out as int).skip(len as int));
                    }
                }
                out = out + len;
                i = i + 6;
            } else {
                if out >= dst.len() {
                    proof {
                        crate::fetch::lemma_prefix_written(d0, dst@, out as int);
                    }
                    return Err(FetchError::Network);
                }
                dst[out] = if next == 110 {
                    10
                } else if next == 114 {
                    13
                } else if next == 116 {
                    9
                } else {
                    next
                };
                proof {
                    assert(dst@.take(out + 1) =~= before.take(out as int) + seq![
                        unescape_letter(next),
                    ]);
                    assert(dst@.skip(out + 1) =~= d0.skip(out + 1)) by {
                        assert(before.skip(out + 1) =~= before.skip(out as int).skip(1));
                        assert(d0.skip(out + 1) =~= d0.skip(out as int).skip(1));
                    }
                }
                out = out + 1;
                i = i + 2;
            }
            continue;
        }
        if b == 34 {
            proof {
                assert(dst@.take(out as int) + Seq::<u8>::empty() =~= dst@.take(out as int));
                crate::fetch::lemma_prefix_written(d0, dst@, out as int);
            }
            return Ok(out);
        }
        if out >= dst.len() {
            proof {
                crate::fetch::lemma_prefix_written(d0, dst@, out as int);
            }
            return Err(FetchError::Network);
        }
        dst[out] = b;
        proof {
            assert(dst@.take(out + 1) =~= before.take(out as int) + seq![b]);
            assert(dst@.skip(out + 1) =~= d0.skip(out + 1)) by {
                assert(before.skip(out + 1) =~= before.skip(out as int).skip(1));
                assert(d0.skip(out + 1) =~= d0.skip(out as int).skip(1));
            }
        }
        out = out + 1;
        i = i + 1;
    }
    proof {
        crate::fetch::lemma_prefix_written(d0, dst@, out as int);
    }
    Err(FetchError::Network)
}

/// A manga card as the listings carry it.
pub open spec fn card_json(id: Seq<u8>, title: Seq<u8>, cover: Seq<u8>, tag: Seq<u8>) -> Seq<u8> {
    "{\"id\":\"manga:".spec_bytes() + escaped(id) + "\",\"title\":\"".spec_bytes() + escaped(title)
        + "\",\"cover\":{\"kind\":\"url\",\"url\":\"".spec_bytes() + escaped(cover)
        + CARD_TAIL.spec_bytes() + "\"".spec_bytes() + escaped(tag) + "\"]}".spec_bytes()
}

/// The units a manga card is written in.
pub open spec fn card_units(id: Seq<u8>, title: Seq<u8>, cover: Seq<u8>, tag: Seq<u8>) -> Seq<Seq<u8>> {
    seq!["{\"id\":\"manga:".spec_bytes()] + byte_units(id, escape_fn()) + seq!["\",\"title\":\"".spec_bytes()]
        + byte_units(title, escape_fn()) + seq!["\",\"cover\":{\"kind\":\"url\",\"url\":\"".spec_bytes()]
        + byte_units(cover, escape_fn()) + seq![CARD_TAIL.spec_bytes(), "\"".spec_bytes()] + byte_units(
        tag,
        escape_fn(),
    ) + seq!["\"]}".spec_bytes()]
}

pub const CARD_TAIL: &'static str =
    "\"},\"authors\":[],\"status\":\"unknown\",\"contentRating\":\"nsfw\",\"description\":\"\",\"sourceTags\":[";

/// Writes one manga card.
pub fn write_card_item(
    payload: &mut [u8],
    c: &mut usize,
    id: &[u8],
    title: &[u8],
    cover: &[u8],
    tag: &[u8],
) -> (ok: bool)
    requires
        *old(c) <= old(payload)@.len(),
    ensures
        appended(
            old(payload)@,
            *old(c) as int,
            card_json(id@, title@, cover@, tag@),
            final(payload)@,
            *final(c) as int,
            ok,
        ),
        wrote_units(old(payload)@, *old(c) as int, card_units(id@, title@, cover@, tag@), final(payload)@, *final(c) as int, ok),
        final(payload)@.len() == old(payload)@.len(),
        *final(c) <= final(payload)@.len(),
{
    let ps = [
        Piece::Text("{\"id\":\"manga:"),
        Piece::Escaped(id),
        Piece::Text("\",\"title\":\""),
        Piece::Escaped(title),
        Piece::Text("\",\"cover\":{\"kind\":\"url\",\"url\":\""),
        Piece::Escaped(cover),
        Piece::Text(CARD_TAIL),
        Piece::Text("\""),
        Piece::Escaped(tag),
        Piece::Text("\"]}"),
    ];
    proof {
        reveal_with_fuel(pieces_bytes, 11);
        assert(pieces_bytes(ps@) =~= card_json(id@, title@, cover@, tag@));
        reveal_with_fuel(pieces_units, 11);
        assert(pieces_units(ps@) =~= card_units(id@, title@, cover@, tag@));
    }
    put_pieces(payload, c, &ps)
}

/// A card found in a listing page: id, title and cover.
pub type Card = (Seq<u8>, Seq<u8>, Seq<u8>);

pub const BG_MARKER: &'static str = "background-image: url(";

/// The cover of the card whose link starts at `a`: the `src` of the last
/// `<img` within the 700 bytes before it, else the trimmed target of the
/// last `background-image: url(` there, else nothing.
pub open spec fn cover_of(html: Seq<u8>, a: int) -> Seq<u8> {
    let ss = if a >= 700 {
        a - 700
    } else {
        0
    };
    let before = html.subrange(ss, a);
    match rfind(before, "<img".spec_bytes()) {
        Some(r) => {
            let is = ss + r;
            let ie = match find(html.subrange(is, html.len() as int), ">".spec_bytes()) {
                Some(v) => is + v + 1,
                None => a,
            };
            match attr_value_of(html.subrange(is, ie), "src".spec_bytes()) {
                Some(v) => v,
                None => Seq::empty(),
            }
        },
        None => match rfind(before, BG_MARKER.spec_bytes()) {
            Some(r) => {
                let st = ss + r + BG_MARKER.spec_bytes().len();
                match find(html.subrange(st, a), ")".spec_bytes()) {
                    Some(e) => trimmed(html.subrange(st, st + e)),
                    None => Seq::empty(),
                }
            },
            None => Seq::empty(),
        },
    }
}

/// The cover of the card whose link starts at `a_start`.
pub fn card_cover<'a>(html: &'a [u8], a_start: usize) -> (r: &'a [u8])
    requires
        a_start <= html@.len(),
    ensures
        r@ == cover_of(html@, a_start as int),
{
    proof {
        reveal_strlit("");
    }
    let search_start: usize = if a_start >= 700 {
        a_start - 700
    } else {
        0
    };
    let before = slice_subrange(html, search_start, a_start);
    match find_last_subslice(before, "<img".as_bytes()) {
        Some(img_rel) => {
            let img_start = search_start + img_rel;
            let rest = slice_subrange(html, img_start, html.len());
            let img_end = match find_subslice(rest, ">".as_bytes()) {
                Some(v) => img_start + v + 1,
                None => a_start,
            };
            assert(img_start <= img_end);
            match attr_value(slice_subrange(html, img_start, img_end), "src".as_bytes()) {
                Some(v) => v,
                None => "".as_bytes(),
            }
        },
        None => match find_last_subslice(before, BG_MARKER.as_bytes()) {
            Some(style_rel) => {
                let start = search_start + style_rel + BG_MARKER.as_bytes().len();
                match find_subslice(slice_subrange(html, start, a_start), ")".as_bytes()) {
                    Some(end_rel) => trim_ascii(slice_subrange(html, start, start + end_rel)),
                    None => "".as_bytes(),
                }
            },
            None => "".as_bytes(),
        },
    }
}

/// Where the `<a ...>` tag found from `pos` starts and ends (one past its
/// `>`).
pub open spec fn next_link(html: Seq<u8>, pos: int) -> Option<(int, int)> {
    match find(html.subrange(pos, html.len() as int), "<a ".spec_bytes()) {
        None => None,
        Some(rel) => {
            let a_start = pos + rel;
            match find(html.subrange(a_start, html.len() as int), ">".spec_bytes()) {
                None => None,
                Some(v) => Some((a_start, a_start + v + 1)),
            }
        },
    }
}

/// The cards of a listing page from `pos` on, at most `m` of them: each
/// link tag with a `href` to a manga, a `title`, and an id other than the
/// one of the card before.
#[verifier::opaque]
pub open spec fn cards_from(html: Seq<u8>, pos: int, last: Seq<u8>, m: nat) -> Seq<Card>
    decreases html.len() - pos,
{
    if m == 0 || pos < 0 || pos > html.len() {
        Seq::empty()
    } else {
        match next_link(html, pos) {
            None => Seq::empty(),
            Some((a_start, a_end)) => if a_end <= pos || a_end > html.len() {
                Seq::empty()
            } else {
                let tag = html.subrange(a_start, a_end);
                match attr_value_of(tag, "href".spec_bytes()) {
                    None => cards_from(html, a_end, last, m),
                    Some(href) => match manga_id_of_href(href) {
                        None => cards_from(html, a_end, last, m),
                        Some(id) => if id == last {
                            cards_from(html, a_end, last, m)
                        } else {
                            match attr_value_of(tag, "title".spec_bytes()) {
                                None => cards_from(html, a_end, last, m),
                                Some(title) => seq![(id, title, cover_of(html, a_start))]
                                    + cards_from(html, a_end, id, (m - 1) as nat),
                            }
                        },
                    },
                }
            },
        }
    }
}

/// The cards of a listing page, at most `m`.
pub open spec fn cards(html: Seq<u8>, m: nat) -> Seq<Card> {
    cards_from(html, 0, Seq::empty(), m)
}

/// Cards written one after the other, comma separated.
#[verifier::opaque]
pub open spec fn cards_text(cs: Seq<Card>, tag: Seq<u8>) -> Seq<u8>
    decreases cs.len(),
{
    if cs.len() == 0 {
        Seq::empty()
    } else {
        cards_text(cs.drop_last(), tag) + card_unit(cs.len() > 1, cs.last(), tag)
    }
}

pub open spec fn card_unit(sep: bool, c: Card, tag: Seq<u8>) -> Seq<u8> {
    (if sep {
        ",".spec_bytes()
    } else {
        Seq::empty()
    }) + card_json(c.0, c.1, c.2, tag)
}

/// The text of fewer cards is where the text of more starts.
pub proof fn lemma_cards_prefix(cs: Seq<Card>, tag: Seq<u8>, k: int)
    requires
        0 <= k <= cs.len(),
    ensures
        cards_text(cs.take(k), tag).len() <= cards_text(cs, tag).len(),
        cards_text(cs, tag) == cards_text(cs.take(k), tag) + cards_text(cs, tag).skip(
            cards_text(cs.take(k), tag).len() as int,
        ),
    decreases cs.len() - k,
{
    reveal(cards_text);
    if k == cs.len() {
        assert(cs.take(k) =~= cs);
        assert(cards_text(cs, tag).skip(cards_text(cs, tag).len() as int) =~= Seq::<u8>::empty());
    } else {
        lemma_cards_prefix(cs, tag, k + 1);
        assert(cs.take(k + 1).drop_last() =~= cs.take(k));
        let a = cards_text(cs.take(k), tag);
        let b = cards_text(cs.take(k + 1), tag);
        let f = cards_text(cs, tag);
        assert(b == a + card_unit(k + 1 > 1, cs[k], tag));
        assert(f =~= a + f.skip(a.len() as int)) by {
            assert(f == b + f.skip(b.len() as int));
        }
    }
}

/// Whether `written` cards of `cs` went out whole and the cursor stands
/// where the text written from `c0` says: all of them, or the first
/// `written` and part of the next.
pub open spec fn cards_written(cs: Seq<Card>, tag: Seq<u8>, written: int, c0: int, c1: int) -> bool {
    &&& 0 <= written <= cs.len()
    &&& written < cs.len() ==> cards_text(cs.take(written), tag).len() <= c1 - c0
        < cards_text(cs.take(written + 1), tag).len()
}

/// The cards as the units they are written in.
pub open spec fn card_unit_items(cs: Seq<Card>, tag: Seq<u8>) -> Seq<Seq<Seq<u8>>> {
    listed(Seq::new(cs.len(), |k: int| card_units(cs[k].0, cs[k].1, cs[k].2, tag)))
}

/// All the cards went out whole: where the writer stands.
proof fn lemma_cards_done(xs: Seq<Seq<Seq<u8>>>, d0: Seq<u8>, c0: int, d1: Seq<u8>, c1: int, w: int)
    requires
        0 <= c0 <= d0.len(),
        w == xs.len(),
        wrote_units(d0, c0, concat_units(xs.take(w)), d1, c1, true),
    ensures
        wrote_units(d0, c0, concat_units(xs), d1, c1, true),
        whole_items(xs, d0.len() - c0) == w,
{
    assert(xs.take(w) =~= xs);
    lemma_whole_items_at(xs, d0.len() - c0, w);
}

/// Writes one card, after a comma unless it is the first.
fn write_card_unit(
    payload: &mut [u8],
    c: &mut usize,
    first: bool,
    id: &[u8],
    title: &[u8],
    cover: &[u8],
    tag: &[u8],
) -> (ok: bool)
    requires
        *old(c) <= old(payload)@.len(),
    ensures
        appended(
            old(payload)@,
            *old(c) as int,
            card_unit(!first, (id@, title@, cover@), tag@),
            final(payload)@,
            *final(c) as int,
            ok,
        ),
        wrote_units(
            old(payload)@,
            *old(c) as int,
            item_units(!first, card_units(id@, title@, cover@, tag@)),
            final(payload)@,
            *final(c) as int,
            ok,
        ),
        final(payload)@.len() == old(payload)@.len(),
        *final(c) <= final(payload)@.len(),
{
    let ghost d0 = payload@;
    let ghost c0 = *c as int;
    let ghost u = card_json(id@, title@, cover@, tag@);
    let ghost us = card_units(id@, title@, cover@, tag@);
    if first {
        let ok = write_card_item(payload, c, id, title, cover, tag);
        assert(Seq::<u8>::empty() + u =~= u);
        assert(Seq::<Seq<u8>>::empty() + us =~= us);
        return ok;
    }
    let good = put_str(payload, c, ",");
    if !good {
        proof {
            lemma_appended_fail_extend(d0, c0, ",".spec_bytes(), payload@, *c as int, u);
            crate::units::lemma_wrote_fail_extend(d0, c0, seq![",".spec_bytes()], payload@, *c as int, us);
        }
        return false;
    }
    let ghost dm = payload@;
    let ghost cm = *c as int;
    let ok = write_card_item(payload, c, id, title, cover, tag);
    proof {
        lemma_appended_then(d0, c0, ",".spec_bytes(), dm, cm, u, payload@, *c as int, ok);
        crate::units::lemma_wrote_then(d0, c0, seq![",".spec_bytes()], dm, cm, us, payload@, *c as int, ok);
    }
    ok
}

/// The `k`-th card written whole after the first `k`.
proof fn lemma_card_ok(all: Seq<Card>, tag: Seq<u8>, k: int, d0: Seq<u8>, c0: int, dm: Seq<u8>, cm: int, d1: Seq<u8>, c1: int)
    requires
        0 <= k < all.len(),
        0 <= c0 <= d0.len(),
        appended(d0, c0, cards_text(all.take(k), tag), dm, cm, true),
        appended(dm, cm, card_unit(k > 0, all[k], tag), d1, c1, true),
    ensures
        appended(d0, c0, cards_text(all.take(k + 1), tag), d1, c1, true),
{
    reveal(cards_text);
    assert(all.take(k + 1).drop_last() =~= all.take(k));
    lemma_appended_then(d0, c0, cards_text(all.take(k), tag), dm, cm, card_unit(k > 0, all[k], tag), d1, c1, true);
}

/// The `k`-th card did not fit after the first `k`.
proof fn lemma_card_fail(all: Seq<Card>, tag: Seq<u8>, k: int, d0: Seq<u8>, c0: int, dm: Seq<u8>, cm: int, d1: Seq<u8>, c1: int)
    requires
        0 <= k < all.len(),
        0 <= c0 <= d0.len(),
        appended(d0, c0, cards_text(all.take(k), tag), dm, cm, true),
        appended(dm, cm, card_unit(k > 0, all[k], tag), d1, c1, false),
    ensures
        appended(d0, c0, cards_text(all, tag), d1, c1, false),
        cards_written(all, tag, k, c0, c1),
{
    reveal(cards_text);
    let a = cards_text(all.take(k), tag);
    let u = card_unit(k > 0, all[k], tag);
    assert(all.take(k + 1).drop_last() =~= all.take(k));
    assert(cards_text(all.take(k + 1), tag) == a + u);
    lemma_appended_then(d0, c0, a, dm, cm, u, d1, c1, false);
    lemma_cards_prefix(all, tag, k + 1);
    let full = cards_text(all, tag);
    lemma_appended_fail_extend(d0, c0, a + u, d1, c1, full.skip((a + u).len() as int));
}

/// Writes the cards of a listing page after `c`, at most `max`, comma
/// separated, and returns how many went out whole; it stops at the first
/// that does not fit.
#[verifier::rlimit(60)]
pub fn parse_cards(html: &[u8], payload: &mut [u8], c: &mut usize, max: usize, tag: &[u8]) -> (written: usize)
    requires
        *old(c) <= old(payload)@.len(),
    ensures
        appended(
            old(payload)@,
            *old(c) as int,
            cards_text(cards(html@, max as nat), tag@),
            final(payload)@,
            *final(c) as int,
            written == cards(html@, max as nat).len(),
        ),
        cards_written(cards(html@, max as nat), tag@, written as int, *old(c) as int, *final(c) as int),
        wrote_units(
            old(payload)@,
            *old(c) as int,
            concat_units(card_unit_items(cards(html@, max as nat), tag@)),
            final(payload)@,
            *final(c) as int,
            written == cards(html@, max as nat).len(),
        ),
        written == whole_items(card_unit_items(cards(html@, max as nat), tag@), old(payload)@.len() - *old(c)),
        final(payload)@.len() == old(payload)@.len(),
        *final(c) <= final(payload)@.len(),
{
    let ghost d0 = payload@;
    let ghost c0 = *c as int;
    let ghost all = cards(html@, max as nat);
    let ghost xs = card_unit_items(all, tag@);
    let mut pos: usize = 0;
    let mut written: usize = 0;
    let mut last: &[u8] = "".as_bytes();
    proof {
        reveal(cards_from);
        reveal(cards_text);
        reveal_strlit("");
        lemma_appended_start(d0, c0);
        lemma_units_empty(xs, d0, c0);
        assert(all.take(0) =~= Seq::<Card>::empty());
        assert(all == all.take(0) + cards_from(html@, 0, last@, max as nat));
    }
    while written < max
        invariant
            0 <= pos <= html@.len(),
            written <= max,
            written <= all.len(),
            d0 == old(payload)@,
            c0 == *old(c) as int,
            0 <= c0 <= d0.len(),
            payload@.len() == d0.len(),
            *c <= payload@.len(),
            all == cards(html@, max as nat),
            all == all.take(written as int) + cards_from(html@, pos as int, last@, (max - written) as nat),
            written > 0 ==> last@ == all[written - 1].0,
            appended(d0, c0, cards_text(all.take(written as int), tag@), payload@, *c as int, true),
            xs == card_unit_items(all, tag@),
            wrote_units(d0, c0, concat_units(xs.take(written as int)), payload@, *c as int, true),
        decreases html@.len() - pos,
    {
        proof {
            reveal(cards_from);
        }
        let ghost m = (max - written) as nat;
        let rest = slice_subrange(html, pos, html.len());
        let rel = match find_subslice(rest, "<a ".as_bytes()) {
            Some(v) => v,
            None => {
                proof {
                    reveal(cards_from);
                    assert(all =~= all.take(written as int));
                    lemma_cards_done(xs, d0, c0, payload@, *c as int, written as int);
                }
                return written;
            },
        };
        let a_start = pos + rel;
        let rest2 = slice_subrange(html, a_start, html.len());
        let a_end = match find_subslice(rest2, ">".as_bytes()) {
            Some(v) => a_start + v + 1,
            None => {
                proof {
                    reveal(cards_from);
                    assert(all =~= all.take(written as int));
                    lemma_cards_done(xs, d0, c0, payload@, *c as int, written as int);
                }
                return written;
            },
        };
        assert(next_link(html@, pos as int) == Some((a_start as int, a_end as int)));
        let ghost old_pos = pos as int;
        pos = a_end;
        let a_tag = slice_subrange(html, a_start, a_end);
        let href = match attr_value(a_tag, "href".as_bytes()) {
            Some(v) => v,
            None => continue,
        };
        let id = match manga_id_from_href(href) {
            Some(v) => v,
            None => continue,
        };
        if same_bytes(id, last) {
            continue;
        }
        let title = match attr_value(a_tag, "title".as_bytes()) {
            Some(v) => v,
            None => continue,
        };
        let cover = card_cover(html, a_start);
        let ghost card: Card = (id@, title@, cover@);
        proof {
            reveal(cards_from);
            assert(cards_from(html@, old_pos, last@, m) == seq![card] + cards_from(
                html@,
                a_end as int,
                id@,
                (m - 1) as nat,
            ));
            assert(all.take(written + 1) =~= all.take(written as int).push(card));
            assert(all =~= all.take(written + 1) + cards_from(html@, a_end as int, id@, (m - 1) as nat));
            assert(all[written as int] == card);
            assert(xs[written as int] == item_units(written > 0, card_units(id@, title@, cover@, tag@)));
        }
        let ghost dm = payload@;
        let ghost cm = *c as int;
        let good = write_card_unit(payload, c, written == 0, id, title, cover, tag);
        if !good {
            proof {
                lemma_card_fail(all, tag@, written as int, d0, c0, dm, cm, payload@, *c as int);
                let j = written as int;
                lemma_units_item_fail(xs, j, d0, c0, dm, cm, payload@, *c as int);
                assert(xs.take(j + 1).drop_last() =~= xs.take(j));
                crate::units::lemma_cat_concat(concat_units(xs.take(j)), xs[j]);
                crate::units::lemma_fitting_full(concat_units(xs.take(j)), d0.len() - c0);
                lemma_whole_items_at(xs, d0.len() - c0, j);
            }
            return written;
        }
        proof {
            lemma_card_ok(all, tag@, written as int, d0, c0, dm, cm, payload@, *c as int);
            lemma_units_item_ok(xs, written as int, d0, c0, dm, cm, payload@, *c as int);
        }
        last = id;
        written = written + 1;
    }
    proof {
        reveal(cards_from);
        assert(cards_from(html@, pos as int, last@, 0) =~= Seq::<Card>::empty());
        assert(all =~= all.take(written as int));
        lemma_cards_done(xs, d0, c0, payload@, *c as int, written as int);
    }
    written
}

pub const ITEMS_OPEN: &'static str = "{\"items\":[";

/// Whether a listing page links a next page.
pub open spec fn has_next_page(html: Seq<u8>) -> bool {
    (exists|i: int| matches_at(html, ">>".spec_bytes(), i)) || (exists|i: int|
        matches_at(html, ">&gt;<".spec_bytes(), i))
}

/// The end of a listing payload: its cursor and whether more follow.
pub open spec fn page_footer(more: bool, written: int) -> Seq<u8> {
    "],\"page\":{\"nextCursor\":".spec_bytes() + (if more {
        "\"next\"".spec_bytes()
    } else {
        "null".spec_bytes()
    }) + ",\"hasMore\":".spec_bytes() + (if more && written > 0 {
        "true".spec_bytes()
    } else {
        "false".spec_bytes()
    }) + "}}".spec_bytes()
}

/// The listing payload of a page when everything fits.
pub open spec fn page_json(html: Seq<u8>, max: nat) -> Seq<u8> {
    let all = cards(html, max);
    ITEMS_OPEN.spec_bytes() + cards_text(all, "dm5".spec_bytes()) + page_footer(
        has_next_page(html),
        all.len() as int,
    )
}

/// A payload built from a head, the cards as far as they went, and a
/// foot written after them.
proof fn lemma_page_text(
    all: Seq<Card>,
    tag: Seq<u8>,
    w: int,
    head: Seq<u8>,
    foot: Seq<u8>,
    d0: Seq<u8>,
    dh: Seq<u8>,
    ch: int,
    dc: Seq<u8>,
    cc: int,
    dp: Seq<u8>,
    cp: int,
)
    requires
        appended(d0, 0, head, dh, ch, true),
        appended(dh, ch, cards_text(all, tag), dc, cc, w == all.len()),
        cards_written(all, tag, w, ch, cc),
        appended(dc, cc, foot, dp, cp, true),
    ensures
        exists|wn: int, k: int|
            cards_written(all, tag, wn, 0, k) && dp.take(cp) == head + cards_text(all, tag).take(k)
                + foot && (wn == w),
        w == all.len() ==> dp.take(cp) == head + cards_text(all, tag) + foot,
{
    let ct = cards_text(all, tag);
    let k = cc - ch;
    assert(ch == head.len());
    if w == all.len() {
        assert(ct.take(k) =~= ct);
    }
    assert(dc.take(cc) =~= head + ct.take(k)) by {
        assert(dh.take(ch) =~= head);
    }
    assert(dp.take(cp) =~= head + ct.take(k) + foot);
    assert(cards_written(all, tag, w, 0, k));
}

/// The listing payload of a page written into `cap` bytes: its opening,
/// the cards up to the first unit that does not fit, and the end for how
/// many went out whole; none where the opening or the end does not fit.
pub open spec fn page_answer(html: Seq<u8>, max: nat, cap: nat) -> Option<Seq<u8>> {
    let xs = card_unit_items(cards(html, max), "dm5".spec_bytes());
    let w = whole_items(xs, cap - ITEMS_OPEN.spec_bytes().len());
    list_written(ITEMS_OPEN.spec_bytes(), concat_units(xs), page_footer(has_next_page(html), w as int), cap as int)
}

/// Writes the listing payload of a fetched page into `payload` and returns
/// its length: the cards (at most `max`) and whether a next page is linked.
/// Where the cards do not all fit, the end is still written after those
/// that went out, and the payload is whatever then fits.
#[verifier::rlimit(30)]
pub fn manga_page_payload(html: &[u8], payload: &mut [u8], max: usize) -> (r: Option<usize>)
    ensures
        final(payload)@.len() == old(payload)@.len(),
        page_json(html@, max as nat).len() <= old(payload)@.len() ==> r == Some(
            page_json(html@, max as nat).len() as usize,
        ) && final(payload)@.take(page_json(html@, max as nat).len() as int) == page_json(
            html@,
            max as nat,
        ),
        match r {
            Some(n) => n <= old(payload)@.len() && page_answer(html@, max as nat, old(payload)@.len()) == Some(
                final(payload)@.take(n as int),
            ),
            None => page_json(html@, max as nat).len() > old(payload)@.len() && page_answer(
                html@,
                max as nat,
                old(payload)@.len(),
            ) is None,
        },
{
    let ghost d0 = payload@;
    let ghost all = cards(html@, max as nat);
    let ghost tag = "dm5".spec_bytes();
    let ghost xs = card_unit_items(all, tag);
    let ghost w = whole_items(xs, d0.len() - ITEMS_OPEN.spec_bytes().len());
    let mut c: usize = 0;
    if !put_str(payload, &mut c, ITEMS_OPEN) {
        proof {
            lemma_list_head_fail(
                d0,
                ITEMS_OPEN.spec_bytes(),
                payload@,
                c as int,
                concat_units(xs),
                page_footer(has_next_page(html@), w as int),
            );
        }
        return None;
    }
    let ghost dh = payload@;
    let ghost ch = c as int;
    let written = parse_cards(html, payload, &mut c, max, "dm5".as_bytes());
    let ghost dc = payload@;
    let ghost cc = c as int;
    let has_more = contains_bytes(html, ">>".as_bytes()) || contains_bytes(html, ">&gt;<".as_bytes());
    let ps = [
        Piece::Text("],\"page\":{\"nextCursor\":"),
        Piece::Text(if has_more { "\"next\"" } else { "null" }),
        Piece::Text(",\"hasMore\":"),
        Piece::Text(if has_more && written > 0 { "true" } else { "false" }),
        Piece::Text("}}"),
    ];
    let ghost foot = page_footer(has_next_page(html@), written as int);
    proof {
        reveal_strlit(">>");
        reveal_strlit(">&gt;<");
        assert(has_more == has_next_page(html@));
        reveal_with_fuel(pieces_bytes, 6);
        assert(pieces_bytes(ps@) =~= foot);
        assert(written == w);
    }
    let ok = put_pieces(payload, &mut c, &ps);
    proof {
        lemma_list_written(d0, ITEMS_OPEN.spec_bytes(), dh, ch, concat_units(xs), dc, cc, written == all.len(), foot, payload@, c as int, ok);
    }
    if !ok {
        return None;
    }
    proof {
        lemma_page_text(all, tag, written as int, ITEMS_OPEN.spec_bytes(), foot, d0, dh, ch, dc, cc, payload@, c as int);
    }
    Some(c)
}

/// Start of the run of digits that ends at `p`.
pub open spec fn digits_back(s: Seq<u8>, p: int) -> int
    decreases p,
{
    if p > 0 && p <= s.len() && is_digit(s[p - 1]) {
        digits_back(s, p - 1)
    } else {
        p
    }
}

/// The digits right before the first `P` of a chapter title, as a page
/// count; 0 when there is no `P`.
pub open spec fn page_count_digits(title: Seq<u8>) -> Seq<u8> {
    match find(title, "P".spec_bytes()) {
        Some(p) => title.subrange(digits_back(title, p), p),
        None => Seq::empty(),
    }
}

proof fn lemma_digits_back(s: Seq<u8>, p: int)
    requires
        0 <= p <= s.len(),
    ensures
        0 <= digits_back(s, p) <= p,
        all_digits(s.subrange(digits_back(s, p), p)),
    decreases p,
{
    if p > 0 && is_digit(s[p - 1]) {
        lemma_digits_back(s, p - 1);
        let a = digits_back(s, p - 1);
        assert forall|j: int| 0 <= j < p - a implies is_digit(#[trigger] s.subrange(a, p)[j]) by {
            if j < p - 1 - a {
                assert(s.subrange(a, p)[j] == s.subrange(a, p - 1)[j]);
            }
        }
    }
}

/// The page count a chapter title states as digits before its first `P`.
pub fn extract_page_count(title: &[u8]) -> (r: usize)
    requires
        digits_fit(page_count_digits(title@), usize::MAX as nat),
    ensures
        r == digits_value(page_count_digits(title@)),
{
    let p = match find_subslice(title, "P".as_bytes()) {
        Some(v) => v,
        None => return 0,
    };
    let mut start = p;
    while start > 0 && title[start - 1] >= 48 && title[start - 1] <= 57
        invariant
            start <= p < title@.len(),
            digits_back(title@, p as int) == digits_back(title@, start as int),
        decreases start,
    {
        start = start - 1;
    }
    proof {
        lemma_digits_back(title@, p as int);
    }
    let ghost run = title@.subrange(start as int, p as int);
    let mut n: usize = 0;
    let mut i = start;
    while i < p
        invariant
            start <= i <= p < title@.len(),
            run == title@.subrange(start as int, p as int),
            all_digits(run),
            digits_fit(run, usize::MAX as nat),
            n == digits_value(run.take(i - start)),
        decreases p - i,
    {
        proof {
            assert(run.take(i - start + 1).drop_last() =~= run.take(i - start));
            assert(all_digits(run.take(i - start + 1)));
            assert(run[i - start] == title@[i as int]);
        }
        n = n * 10 + (title[i] - 48) as usize;
        i = i + 1;
    }
    assert(run.take(p - start) =~= run);
    n
}

/// The value of `attr` in the tag around the first `marker`.
pub open spec fn attr_after_of(html: Seq<u8>, marker: Seq<u8>, attr: Seq<u8>) -> Option<Seq<u8>> {
    match find(html, marker) {
        None => None,
        Some(p) => {
            let ts = match find_back_of(html, p, 60) {
                Some(t) => t,
                None => p,
            };
            match find(html.subrange(p, html.len() as int), ">".spec_bytes()) {
                None => None,
                Some(e) => attr_value_of(html.subrange(ts, p + e + 1), attr),
            }
        },
    }
}

pub fn extract_attr_after<'a>(html: &'a [u8], marker: &[u8], attr: &[u8]) -> (r: Option<&'a [u8]>)
    ensures
        match r {
            Some(v) => attr_after_of(html@, marker@, attr@) == Some(v@),
            None => attr_after_of(html@, marker@, attr@) is None,
        },
{
    let p = match find_subslice(html, marker) {
        Some(v) => v,
        None => return None,
    };
    let tag_start = match find_back(html, p, 60) {
        Some(t) => t,
        None => p,
    };
    proof {
        lemma_find_back_le(html@, p as int, 60);
    }
    let e = match find_subslice(slice_subrange(html, p, html.len()), ">".as_bytes()) {
        Some(v) => v,
        None => return None,
    };
    attr_value(slice_subrange(html, tag_start, p + e + 1), attr)
}

/// What `find_back_of` finds lies at or before where it started.
proof fn lemma_find_back_le(bytes: Seq<u8>, pos: int, needle: u8)
    ensures
        match find_back_of(bytes, pos, needle) {
            Some(i) => 0 < i <= pos,
            None => true,
        },
    decreases pos,
{
    if pos > 0 && bytes[pos] != needle {
        lemma_find_back_le(bytes, pos - 1, needle);
    }
}

/// The text (tags stripped, trimmed, as much as fits `cap`) between the
/// tag holding the first `marker` and the next `end_marker`.
pub open spec fn between_text_of(html: Seq<u8>, marker: Seq<u8>, end_marker: Seq<u8>, cap: nat) -> Option<Seq<u8>> {
    match find(html, marker) {
        None => None,
        Some(mp) => match find(html.subrange(mp, html.len() as int), ">".spec_bytes()) {
            None => None,
            Some(g) => {
                let gt = mp + g + 1;
                match find(html.subrange(gt, html.len() as int), end_marker) {
                    None => None,
                    Some(e) => {
                        let u = untagged(html.subrange(gt, gt + e));
                        Some(trimmed(u.take(min(u.len() as int, cap as int))))
                    },
                }
            },
        }
    }
}

pub fn extract_between_text<'a>(html: &[u8], marker: &[u8], end_marker: &[u8], out: &'a mut [u8]) -> (r: Option<&'a [u8]>)
    ensures
        final(out)@.len() == old(out)@.len(),
        match r {
            Some(v) => between_text_of(html@, marker@, end_marker@, old(out)@.len()) == Some(v@),
            None => between_text_of(html@, marker@, end_marker@, old(out)@.len()) is None,
        },
{
    let marker_pos = match find_subslice(html, marker) {
        Some(v) => v,
        None => return None,
    };
    let g = match find_subslice(slice_subrange(html, marker_pos, html.len()), ">".as_bytes()) {
        Some(v) => v,
        None => return None,
    };
    let gt = marker_pos + g + 1;
    let e = match find_subslice(slice_subrange(html, gt, html.len()), end_marker) {
        Some(v) => v,
        None => return None,
    };
    Some(strip_tags_to(slice_subrange(html, gt, gt + e), out))
}

/// A chapter found in a chapter list: its id and title.
pub type Chap = (Seq<u8>, Seq<u8>);

pub const CHAPTER_LIST_MARKER: &'static str = "id=\"chapterlistload\"";

/// The chapters of a chapter list from `pos` on, at most `m`, and whether
/// the scan then meets a link whose tag is not closed before its `</a>`,
/// where it cannot go on.
#[verifier::opaque]
pub open spec fn chapter_scan(list: Seq<u8>, pos: int, m: nat) -> (Seq<Chap>, bool)
    decreases list.len() - pos,
{
    if m == 0 || pos < 0 || pos > list.len() {
        (Seq::empty(), false)
    } else {
        match find(list.subrange(pos, list.len() as int), "<a ".spec_bytes()) {
            None => (Seq::empty(), false),
            Some(rel) => {
                let a_start = pos + rel;
                match find(list.subrange(a_start, list.len() as int), "</a>".spec_bytes()) {
                    None => (Seq::empty(), false),
                    Some(v) => {
                        let a_end = a_start + v + 4;
                        if a_end <= pos || a_end > list.len() {
                            (Seq::empty(), false)
                        } else {
                            let block = list.subrange(a_start, a_end);
                            match find(block, ">".spec_bytes()) {
                                None => chapter_scan(list, a_end, m),
                                Some(t) => if t + 1 > block.len() - 4 {
                                    (Seq::empty(), true)
                                } else {
                                    match attr_value_of(block.take(t + 1), "href".spec_bytes()) {
                                        None => chapter_scan(list, a_end, m),
                                        Some(href) => match chapter_id_of_href(href) {
                                            None => chapter_scan(list, a_end, m),
                                            Some(cid) => {
                                                let u = untagged(
                                                    block.subrange(t + 1, block.len() - 4),
                                                );
                                                let title = trimmed(u.take(min(u.len() as int, 256)));
                                                if !title_fits(title) {
                                                    (Seq::empty(), true)
                                                } else {
                                                    let rest = chapter_scan(list, a_end, (m - 1) as nat);
                                                    (seq![(cid, title)] + rest.0, rest.1)
                                                }
                                            },
                                        },
                                    }
                                },
                            }
                        }
                    },
                }
            },
        }
    }
}

/// Whether the page count a chapter title states fits in a `usize`.
#[verifier::opaque]
pub open spec fn title_fits(title: Seq<u8>) -> bool {
    digits_fit(page_count_digits(title), usize::MAX as nat)
}

pub const CHAPTER_TAIL: &'static str =
    "\",\"volumeNumber\":null,\"language\":\"zh\",\"publishedAt\":null,\"updatedAt\":null,\"pageCount\":";

/// A chapter entry of manga `id`.
pub open spec fn chapter_json(id: Seq<u8>, ch: Chap) -> Seq<u8> {
    let cid = ch.0;
    let title = ch.1;
    let pc = digits_value(page_count_digits(title));
    "{\"id\":\"chapter:".spec_bytes() + escaped(id) + ":".spec_bytes() + escaped(cid) + ":".spec_bytes()
        + decimal(pc) + "\",\"mangaId\":\"manga:".spec_bytes() + escaped(id)
        + "\",\"title\":\"".spec_bytes() + escaped(title) + "\",\"chapterNumber\":\"".spec_bytes()
        + escaped(
        match first_number_of(title) {
            Some(n) => n,
            None => cid,
        },
    ) + CHAPTER_TAIL.spec_bytes() + (if pc > 0 {
        decimal(pc)
    } else {
        "null".spec_bytes()
    }) + "}".spec_bytes()
}

pub open spec fn chapter_texts(id: Seq<u8>, chs: Seq<Chap>) -> Seq<Seq<u8>> {
    chs.map_values(|ch: Chap| chapter_json(id, ch))
}

/// The units a chapter entry is written in.
pub open spec fn chapter_units(id: Seq<u8>, ch: Chap) -> Seq<Seq<u8>> {
    let cid = ch.0;
    let title = ch.1;
    let pc = digits_value(page_count_digits(title));
    let number = match first_number_of(title) {
        Some(n) => n,
        None => cid,
    };
    seq!["{\"id\":\"chapter:".spec_bytes()] + byte_units(id, escape_fn()) + seq![":".spec_bytes()]
        + byte_units(cid, escape_fn()) + seq![":".spec_bytes(), decimal(pc), "\",\"mangaId\":\"manga:".spec_bytes()]
        + byte_units(id, escape_fn()) + seq!["\",\"title\":\"".spec_bytes()] + byte_units(title, escape_fn())
        + seq!["\",\"chapterNumber\":\"".spec_bytes()] + byte_units(number, escape_fn()) + seq![
        CHAPTER_TAIL.spec_bytes(),
        if pc > 0 {
            decimal(pc)
        } else {
            "null".spec_bytes()
        },
        "}".spec_bytes(),
    ]
}

/// The chapter entries as the units they are written in.
pub open spec fn chapter_unit_items(id: Seq<u8>, chs: Seq<Chap>) -> Seq<Seq<Seq<u8>>> {
    listed(Seq::new(chs.len(), |k: int| chapter_units(id, chs[k])))
}

/// The chapter-list payload of manga `id` written into `cap` bytes: its
/// opening, the chapters up to the first unit that does not fit, and its
/// end; none where the opening or the end does not fit.
pub open spec fn chapters_answer(id: Seq<u8>, chs: Seq<Chap>, cap: nat) -> Option<Seq<u8>> {
    list_written(ITEMS_OPEN.spec_bytes(), concat_units(chapter_unit_items(id, chs)), LIST_END.spec_bytes(), cap as int)
}

pub const LIST_END: &'static str = "],\"page\":{\"nextCursor\":null,\"hasMore\":false}}";

/// The chapter list of a manga page: from the list marker to the next
/// `</div>` (or the end).
pub open spec fn chapter_list_of(html: Seq<u8>) -> Option<Seq<u8>> {
    match find(html, CHAPTER_LIST_MARKER.spec_bytes()) {
        None => None,
        Some(ls) => {
            let le = match find(html.subrange(ls, html.len() as int), "</div>".spec_bytes()) {
                Some(v) => ls + v,
                None => html.len() as int,
            };
            Some(html.subrange(ls, le))
        },
    }
}

/// Writes one chapter entry of manga `id`, after a comma unless first.
#[verifier::spinoff_prover]
#[verifier::rlimit(80)]
fn write_chapter_unit(payload: &mut [u8], c: &mut usize, first: bool, id: &[u8], cid: &[u8], title: &[u8]) -> (ok: bool)
    requires
        *old(c) <= old(payload)@.len(),
        digits_fit(page_count_digits(title@), usize::MAX as nat),
    ensures
        appended(
            old(payload)@,
            *old(c) as int,
            item_unit(!first, chapter_json(id@, (cid@, title@))),
            final(payload)@,
            *final(c) as int,
            ok,
        ),
        wrote_units(
            old(payload)@,
            *old(c) as int,
            item_units(!first, chapter_units(id@, (cid@, title@))),
            final(payload)@,
            *final(c) as int,
            ok,
        ),
        final(payload)@.len() == old(payload)@.len(),
        *final(c) <= final(payload)@.len(),
{
    let page_count = extract_page_count(title);
    let number = match first_number(title) {
        Some(n) => n,
        None => cid,
    };
    let ps = [
        Piece::Text("{\"id\":\"chapter:"),
        Piece::Escaped(id),
        Piece::Text(":"),
        Piece::Escaped(cid),
        Piece::Text(":"),
        Piece::Number(page_count),
        Piece::Text("\",\"mangaId\":\"manga:"),
        Piece::Escaped(id),
        Piece::Text("\",\"title\":\""),
        Piece::Escaped(title),
        Piece::Text("\",\"chapterNumber\":\""),
        Piece::Escaped(number),
        Piece::Text(CHAPTER_TAIL),
        if page_count > 0 {
            Piece::Number(page_count)
        } else {
            Piece::Text("null")
        },
        Piece::Text("}"),
    ];
    proof {
        reveal_with_fuel(pieces_bytes, 16);
        assert(pieces_bytes(ps@) =~= chapter_json(id@, (cid@, title@)));
        reveal_with_fuel(pieces_units, 16);
        assert(pieces_units(ps@) =~= chapter_units(id@, (cid@, title@)));
    }
    put_item(payload, c, first, &ps)
}

/// The chapter-list payload of manga `id` when everything fits.
pub open spec fn chapters_json(id: Seq<u8>, chs: Seq<Chap>) -> Seq<u8> {
    ITEMS_OPEN.spec_bytes() + joined(chapter_texts(id, chs)) + LIST_END.spec_bytes()
}

/// Writes the chapter-list payload of manga `id` from its fetched page:
/// at most 600 chapters, stopping at the first that does not fit (the end
/// is still written after it). `Missing` when the page has no chapter
/// list, `Broken` when the scan meets a link it cannot step over after
/// writing every chapter before it.
#[verifier::rlimit(60)]
pub fn chapters_payload(html: &[u8], id: &[u8], payload: &mut [u8]) -> (r: Outcome)
    ensures
        final(payload)@.len() == old(payload)@.len(),
        (r == Outcome::Missing) == (chapter_list_of(html@) is None),
        match chapter_list_of(html@) {
            None => true,
            Some(list) => {
                let scan = chapter_scan(list, 0, 600);
                let ts = chapter_texts(id@, scan.0);
                let head_len = ITEMS_OPEN.spec_bytes().len() + joined(ts).len();
                &&& r == Outcome::Broken ==> scan.1 && head_len <= old(payload)@.len()
                &&& (scan.1 && head_len <= old(payload)@.len()) ==> r == Outcome::Broken
                &&& (!scan.1 && chapters_json(id@, scan.0).len() <= old(payload)@.len()) ==> r
                    == Outcome::Done(chapters_json(id@, scan.0).len() as usize)
                &&& r == Outcome::Overflow ==> chapters_json(id@, scan.0).len() > old(payload)@.len()
                    && chapters_answer(id@, scan.0, old(payload)@.len()) is None
                &&& r matches Outcome::Done(n) ==> n <= old(payload)@.len() && chapters_answer(
                    id@,
                    scan.0,
                    old(payload)@.len(),
                ) == Some(final(payload)@.take(n as int))
            },
        },
{
    let list_start = match find_subslice(html, CHAPTER_LIST_MARKER.as_bytes()) {
        Some(v) => v,
        None => return Outcome::Missing,
    };
    let after = slice_subrange(html, list_start, html.len());
    let list_end = match find_subslice(after, "</div>".as_bytes()) {
        Some(v) => list_start + v,
        None => html.len(),
    };
    let list = slice_subrange(html, list_start, list_end);
    assert(chapter_list_of(html@) == Some(list@));
    proof {
        reveal_strlit("</a>");
        broadcast use vstd::string::is_ascii_spec_bytes;
        assert(vstd::string::is_ascii("</a>"));
        assert("</a>".spec_bytes().len() == 4);
    }
    let ghost d0 = payload@;
    let ghost scan = chapter_scan(list@, 0, 600);
    let ghost ts = chapter_texts(id@, scan.0);
    let ghost xs = chapter_unit_items(id@, scan.0);
    let mut c: usize = 0;
    if !put_str(payload, &mut c, ITEMS_OPEN) {
        proof {
            lemma_list_head_fail(d0, ITEMS_OPEN.spec_bytes(), payload@, c as int, concat_units(xs), LIST_END.spec_bytes());
        }
        return Outcome::Overflow;
    }
    let ghost dh = payload@;
    let ghost ch = c as int;
    let mut pos: usize = 0;
    let mut written: usize = 0;
    let mut failed = false;
    let mut broken = false;
    proof {
        lemma_joined_empty(ts);
        lemma_units_empty(xs, dh, ch);
        assert(scan.0.take(0) =~= Seq::<Chap>::empty());
    }
    loop
        invariant_except_break
            scan.0 == scan.0.take(written as int) + chapter_scan(list@, pos as int, (600 - written) as nat).0,
            scan.1 == chapter_scan(list@, pos as int, (600 - written) as nat).1,
            appended(dh, ch, joined(ts.take(written as int)), payload@, c as int, true),
            wrote_units(dh, ch, concat_units(xs.take(written as int)), payload@, c as int, true),
            !failed,
            !broken,
        invariant
            0 <= pos <= list@.len(),
            written <= 600,
            written <= scan.0.len(),
            dh.len() == d0.len(),
            0 <= ch <= dh.len(),
            payload@.len() == d0.len(),
            c <= payload@.len(),
            scan == chapter_scan(list@, 0, 600),
            ts == chapter_texts(id@, scan.0),
            xs == chapter_unit_items(id@, scan.0),
            "</a>".spec_bytes().len() == 4,
        ensures
            wrote_units(dh, ch, concat_units(xs), payload@, c as int, !failed),
            failed ==> appended(dh, ch, joined(ts), payload@, c as int, false),
            !failed ==> written == scan.0.len() && appended(dh, ch, joined(ts), payload@, c as int, true),
            !failed ==> broken == scan.1,
            payload@.len() == d0.len(),
            c <= payload@.len(),
        decreases list@.len() - pos,
    {
        proof {
            reveal(chapter_scan);
        }
        let ghost m = (600 - written) as nat;
        if written >= 600 {
            proof {
                assert(chapter_scan(list@, pos as int, 0).0 =~= Seq::<Chap>::empty());
                assert(scan.0 =~= scan.0.take(written as int));
                assert(ts.take(written as int) =~= ts);
                assert(xs.take(written as int) =~= xs);
            }
            break;
        }
        let rest = slice_subrange(list, pos, list.len());
        let rel = match find_subslice(rest, "<a ".as_bytes()) {
            Some(v) => v,
            None => {
                proof {
                    assert(scan.0 =~= scan.0.take(written as int));
                    assert(ts.take(written as int) =~= ts);
                assert(xs.take(written as int) =~= xs);
                }
                break;
            },
        };
        let a_start = pos + rel;
        let rest2 = slice_subrange(list, a_start, list.len());
        let close = "</a>".as_bytes();
        assert(close@.len() == 4);
        let a_end = match find_subslice(rest2, close) {
            Some(v) => a_start + v + 4,
            None => {
                proof {
                    assert(scan.0 =~= scan.0.take(written as int));
                    assert(ts.take(written as int) =~= ts);
                assert(xs.take(written as int) =~= xs);
                }
                break;
            },
        };
        let ghost old_pos = pos as int;
        let block = slice_subrange(list, a_start, a_end);
        pos = a_end;
        let tag_end = match find_subslice(block, ">".as_bytes()) {
            Some(v) => v + 1,
            None => continue,
        };
        if tag_end > block.len() - 4 {
            broken = true;
            proof {
                assert(scan.0 =~= scan.0.take(written as int));
                assert(ts.take(written as int) =~= ts);
                assert(xs.take(written as int) =~= xs);
            }
            break;
        }
        let href = match attr_value(slice_subrange(block, 0, tag_end), "href".as_bytes()) {
            Some(v) => v,
            None => continue,
        };
        let cid = match chapter_id_from_href(href) {
            Some(v) => v,
            None => continue,
        };
        let mut title_buf: [u8; 256] = [0; 256];
        let title = strip_tags_to(slice_subrange(block, tag_end, block.len() - 4), &mut title_buf);
        let fits = digits_fit_exec(page_count_slice(title));
        proof {
            reveal(title_fits);
        }
        if !fits {
            broken = true;
            proof {
                assert(scan.0 =~= scan.0.take(written as int));
                assert(ts.take(written as int) =~= ts);
                assert(xs.take(written as int) =~= xs);
            }
            break;
        }
        let ghost chap: Chap = (cid@, title@);
        proof {
            assert(chapter_scan(list@, old_pos, m).0 == seq![chap] + chapter_scan(
                list@,
                a_end as int,
                (m - 1) as nat,
            ).0);
            assert(scan.0.take(written + 1) =~= scan.0.take(written as int).push(chap));
            assert(scan.0 =~= scan.0.take(written + 1) + chapter_scan(list@, a_end as int, (m - 1) as nat).0);
            assert(ts[written as int] == chapter_json(id@, chap));
            assert(xs[written as int] == item_units(written > 0, chapter_units(id@, chap)));
            assert(ts.take(written as int) =~= chapter_texts(id@, scan.0.take(written as int)));
        }
        let ghost dm = payload@;
        let ghost cm = c as int;
        let good = write_chapter_unit(payload, &mut c, written == 0, id, cid, title);
        if !good {
            proof {
                lemma_item_fail(ts, written as int, dh, ch, dm, cm, payload@, c as int);
                lemma_units_item_fail(xs, written as int, dh, ch, dm, cm, payload@, c as int);
            }
            failed = true;
            break;
        }
        proof {
            lemma_item_ok(ts, written as int, dh, ch, dm, cm, payload@, c as int);
            lemma_units_item_ok(xs, written as int, dh, ch, dm, cm, payload@, c as int);
        }
        written = written + 1;
    }
    let ghost dc = payload@;
    let ghost cc = c as int;
    if !failed && broken {
        return Outcome::Broken;
    }
    let ok = put_str(payload, &mut c, LIST_END);
    proof {
        lemma_list_written(d0, ITEMS_OPEN.spec_bytes(), dh, ch, concat_units(xs), dc, cc, !failed, LIST_END.spec_bytes(), payload@, c as int, ok);
    }
    if !ok {
        return Outcome::Overflow;
    }
    proof {
        let jt = joined(ts);
        let k = cc - ch;
        if !failed {
            assert(jt.take(k) =~= jt);
        }
        assert(dh.take(ch) =~= ITEMS_OPEN.spec_bytes());
        assert(dc.take(cc) =~= ITEMS_OPEN.spec_bytes() + jt.take(k));
        assert(payload@.take(c as int) =~= ITEMS_OPEN.spec_bytes() + jt.take(k) + LIST_END.spec_bytes());
    }
    Outcome::Done(c)
}

/// The digits right before the first `P` of a chapter title.
pub fn page_count_slice(title: &[u8]) -> (r: &[u8])
    ensures
        r@ == page_count_digits(title@),
{
    let p = match find_subslice(title, "P".as_bytes()) {
        Some(v) => v,
        None => {
            proof {
                reveal_strlit("");
            }
            return slice_subrange(title, 0, 0);
        },
    };
    let mut start = p;
    while start > 0 && title[start - 1] >= 48 && title[start - 1] <= 57
        invariant
            start <= p < title@.len(),
            digits_back(title@, p as int) == digits_back(title@, start as int),
        decreases start,
    {
        start = start - 1;
    }
    slice_subrange(title, start, p)
}

/// The title a manga page gives: its script's name, else the text of its
/// title paragraph (up to 256 bytes), else the id.
pub open spec fn title_of(html: Seq<u8>, id: Seq<u8>) -> Seq<u8> {
    match js_string_of(html, "DM5_COMIC_MNAME=\"".spec_bytes()) {
        Some(t) => t,
        None => match between_text_of(html, "<p class=\"title\"".spec_bytes(), "</p>".spec_bytes(), 256) {
            Some(t) => t,
            None => id,
        },
    }
}

/// The description a manga page gives (up to 2048 bytes), or nothing.
pub open spec fn description_of(html: Seq<u8>) -> Seq<u8> {
    match between_text_of(html, "<p class=\"content\"".spec_bytes(), "</p>".spec_bytes(), 2048) {
        Some(t) => t,
        None => Seq::empty(),
    }
}

pub open spec fn mentions(html: Seq<u8>, s: Seq<u8>) -> bool {
    exists|i: int| matches_at(html, s, i)
}

/// The publication status a manga page states.
pub open spec fn status_of(html: Seq<u8>) -> Seq<u8> {
    if mentions(html, "已完结".spec_bytes()) || mentions(html, "已完結".spec_bytes()) {
        "completed".spec_bytes()
    } else if mentions(html, "连载中".spec_bytes()) || mentions(html, "連載中".spec_bytes()) {
        "ongoing".spec_bytes()
    } else {
        "unknown".spec_bytes()
    }
}

pub const DETAIL_TAIL: &'static str =
    "\",\"contentRating\":\"nsfw\",\"language\":\"zh\",\"tags\":[],\"links\":[{\"kind\":\"source\",\"url\":\"";

/// The manga payload of manga `id` read from its page at `url`.
pub open spec fn detail_json(html: Seq<u8>, id: Seq<u8>, url: Seq<u8>) -> Seq<u8> {
    let cover = match attr_after_of(html, "class=\"cover\"".spec_bytes(), "src".spec_bytes()) {
        Some(v) => v,
        None => Seq::empty(),
    };
    "{\"manga\":{\"id\":\"manga:".spec_bytes() + escaped(id) + "\",\"title\":\"".spec_bytes() + escaped(
        title_of(html, id),
    ) + "\",\"alternateTitles\":[],\"description\":\"".spec_bytes() + escaped(description_of(html))
        + "\",\"cover\":{\"kind\":\"url\",\"url\":\"".spec_bytes() + escaped(cover)
        + "\"},\"authors\":[],\"artists\":[],\"status\":\"".spec_bytes() + status_of(html)
        + DETAIL_TAIL.spec_bytes() + escaped(url) + "\"}]}}".spec_bytes()
}

/// Writes the manga payload of manga `id` from its fetched page at `url`;
/// its length, or `None` when it does not fit.
#[verifier::spinoff_prover]
#[verifier::rlimit(40)]
pub fn manga_detail_payload(html: &[u8], id: &[u8], url: &[u8], payload: &mut [u8]) -> (r: Option<usize>)
    ensures
        final(payload)@.len() == old(payload)@.len(),
        match r {
            Some(n) => n == detail_json(html@, id@, url@).len() && final(payload)@.take(n as int)
                == detail_json(html@, id@, url@),
            None => detail_json(html@, id@, url@).len() > old(payload)@.len(),
        },
{
    let mut title_buf: [u8; 256] = [0; 256];
    let mut desc_buf: [u8; 2048] = [0; 2048];
    let title = match extract_js_string(html, "DM5_COMIC_MNAME=\"".as_bytes()) {
        Some(t) => t,
        None => match extract_between_text(html, "<p class=\"title\"".as_bytes(), "</p>".as_bytes(), &mut title_buf) {
            Some(t) => t,
            None => id,
        },
    };
    let desc = match extract_between_text(html, "<p class=\"content\"".as_bytes(), "</p>".as_bytes(), &mut desc_buf) {
        Some(t) => t,
        None => "".as_bytes(),
    };
    let cover = match extract_attr_after(html, "class=\"cover\"".as_bytes(), "src".as_bytes()) {
        Some(v) => v,
        None => "".as_bytes(),
    };
    let status = if contains_bytes(html, "已完结".as_bytes()) || contains_bytes(html, "已完結".as_bytes()) {
        "completed"
    } else if contains_bytes(html, "连载中".as_bytes()) || contains_bytes(html, "連載中".as_bytes()) {
        "ongoing"
    } else {
        "unknown"
    };
    let ps = [
        Piece::Text("{\"manga\":{\"id\":\"manga:"),
        Piece::Escaped(id),
        Piece::Text("\",\"title\":\""),
        Piece::Escaped(title),
        Piece::Text("\",\"alternateTitles\":[],\"description\":\""),
        Piece::Escaped(desc),
        Piece::Text("\",\"cover\":{\"kind\":\"url\",\"url\":\""),
        Piece::Escaped(cover),
        Piece::Text("\"},\"authors\":[],\"artists\":[],\"status\":\""),
        Piece::Text(status),
        Piece::Text(DETAIL_TAIL),
        Piece::Escaped(url),
        Piece::Text("\"}]}}"),
    ];
    proof {
        reveal_strlit("");
        reveal_strlit("已完结");
        reveal_strlit("已完結");
        reveal_strlit("连载中");
        reveal_strlit("連載中");
        assert(title@ == title_of(html@, id@));
        assert(desc@ == description_of(html@));
        assert(status.spec_bytes() == status_of(html@));
        reveal_with_fuel(pieces_bytes, 14);
        assert(pieces_bytes(ps@) =~= detail_json(html@, id@, url@));
    }
    let mut c: usize = 0;
    if !put_pieces(payload, &mut c, &ps) {
        return None;
    }
    Some(c)
}

pub const GET_HEAD: &'static str = "{\"version\":1,\"method\":\"GET\",\"url\":\"";

pub const GET_HEADERS: &'static str =
    "\",\"headers\":{\"User-Agent\":\"Mozilla/5.0 (Windows NT 10.0; Win64; x64) AppleWebKit/537.36 (KHTML, like Gecko) Chrome/139.0.0.0 Safari/537.36\",\"Accept-Language\":\"zh-TW\"";

pub const GET_TAIL: &'static str = "},\"timeoutMs\":15000,\"responseKind\":\"bodyText\"}";

/// The host HTTP request for a GET of `url`, with a `Referer` when given.
pub open spec fn get_request_json(url: Seq<u8>, referer: Option<Seq<u8>>) -> Seq<u8> {
    GET_HEAD.spec_bytes() + escaped(url) + GET_HEADERS.spec_bytes() + match referer {
        Some(r) => ",\"Referer\":\"".spec_bytes() + escaped(r) + "\"".spec_bytes(),
        None => Seq::empty(),
    } + GET_TAIL.spec_bytes()
}

pub open spec fn opt_view(o: Option<&[u8]>) -> Option<Seq<u8>> {
    match o {
        Some(s) => Some(s@),
        None => None,
    }
}

/// Writes the host HTTP request for a GET of `url` into `dst`; its length,
/// or `None` when it does not fit.
pub fn build_get_request(dst: &mut [u8], url: &[u8], referer: Option<&[u8]>) -> (r: Option<usize>)
    ensures
        final(dst)@.len() == old(dst)@.len(),
        match r {
            Some(n) => n == get_request_json(url@, opt_view(referer)).len() && final(dst)@.take(n as int)
                == get_request_json(url@, opt_view(referer)),
            None => get_request_json(url@, opt_view(referer)).len() > old(dst)@.len(),
        },
{
    let (p1, p2, p3) = match referer {
        Some(rf) => (Piece::Text(",\"Referer\":\""), Piece::Escaped(rf), Piece::Text("\"")),
        None => (Piece::Text(""), Piece::Text(""), Piece::Text("")),
    };
    let ps = [
        Piece::Text(GET_HEAD),
        Piece::Escaped(url),
        Piece::Text(GET_HEADERS),
        p1,
        p2,
        p3,
        Piece::Text(GET_TAIL),
    ];
    proof {
        reveal_strlit("");
        reveal_with_fuel(pieces_bytes, 8);
        assert(pieces_bytes(ps@) =~= get_request_json(url@, opt_view(referer)));
    }
    let mut c: usize = 0;
    if !put_pieces(dst, &mut c, &ps) {
        return None;
    }
    Some(c)
}

pub open spec fn raw_pieces(parts: Seq<&[u8]>) -> Seq<Seq<u8>> {
    parts.map_values(|p: &[u8]| p@)
}

/// Writes `parts` one after the other into `dst`; their total length, or
/// `None` when they do not fit.
pub fn make_url(parts: &[&[u8]], dst: &mut [u8]) -> (r: Option<usize>)
    ensures
        final(dst)@.len() == old(dst)@.len(),
        match r {
            Some(n) => n == flat(raw_pieces(parts@)).len() && final(dst)@.take(n as int) == flat(
                raw_pieces(parts@),
            ),
            None => flat(raw_pieces(parts@)).len() > old(dst)@.len(),
        },
{
    let ghost us = raw_pieces(parts@);
    let ghost d0 = dst@;
    let mut c: usize = 0;
    let mut k: usize = 0;
    proof {
        lemma_flat_empty(us);
        lemma_appended_start(d0, 0);
    }
    while k < parts.len()
        invariant
            0 <= k <= parts@.len(),
            us == raw_pieces(parts@),
            d0 == old(dst)@,
            dst@.len() == d0.len(),
            c <= dst@.len(),
            appended(d0, 0, flat(us.take(k as int)), dst@, c as int, true),
        decreases parts@.len() - k,
    {
        let ghost dm = dst@;
        let ghost cm = c as int;
        let ok = crate::json_utils::put_bytes(dst, &mut c, parts[k]);
        assert(us[k as int] == parts@[k as int]@);
        if !ok {
            proof {
                lemma_unit_fail(us, k as int, d0, 0, dm, cm, dst@, c as int);
            }
            return None;
        }
        proof {
            lemma_unit_ok(us, k as int, d0, 0, dm, cm, dst@, c as int);
        }
        k = k + 1;
    }
    proof {
        assert(us.take(k as int) =~= us);
    }
    Some(c)
}

pub const IMAGE_HEADERS: &'static str =
    "\",\"headers\":{\"Referer\":\"https://www.dm5.cn/\",\"Accept-Language\":\"zh-TW\",\"User-Agent\":\"Mozilla/5.0 (Windows NT 10.0; Win64; x64) AppleWebKit/537.36 (KHTML, like Gecko) Chrome/139.0.0.0 Safari/537.36\"}}";

/// The image request payload for the request's `url`.
pub open spec fn image_request_json(url: Seq<u8>) -> Seq<u8> {
    "{\"url\":\"".spec_bytes() + escaped(url) + IMAGE_HEADERS.spec_bytes()
}

/// Writes the image request payload answering `req`: `Missing` when the
/// request has no `url`.
pub fn image_request_payload(req: &[u8], payload: &mut [u8]) -> (r: Outcome)
    ensures
        final(payload)@.len() == old(payload)@.len(),
        match json_string_value(req@, "url".spec_bytes()) {
            None => r == Outcome::Missing,
            Some(url) => if image_request_json(url).len() <= old(payload)@.len() {
                r == Outcome::Done(image_request_json(url).len() as usize) && final(payload)@.take(
                    image_request_json(url).len() as int,
                ) == image_request_json(url)
            } else {
                r == Outcome::Overflow
            },
        },
{
    let url = match extract_json_string(req, "url".as_bytes()) {
        Some(v) => v,
        None => return Outcome::Missing,
    };
    let ps = [Piece::Text("{\"url\":\""), Piece::Escaped(url), Piece::Text(IMAGE_HEADERS)];
    proof {
        reveal_with_fuel(pieces_bytes, 4);
        assert(pieces_bytes(ps@) =~= image_request_json(url@));
    }
    let mut c: usize = 0;
    if !put_pieces(payload, &mut c, &ps) {
        return Outcome::Overflow;
    }
    Outcome::Done(c)
}


/// The id inside a `manga:` id, when it has one.
pub fn manga_part(manga_id: &[u8]) -> (r: Option<&[u8]>)
    ensures
        match r {
            Some(v) => crate::sources::site::id_rest(manga_id@, "manga:".spec_bytes()) == Some(v@),
            None => crate::sources::site::id_rest(manga_id@, "manga:".spec_bytes()) is None,
        },
{
    crate::sources::site::rest_after(manga_id, "manga:".as_bytes())
}

/// A chapter id `chapter:<manga>:<cid>[:...]`: the manga and the chapter's
/// cid (up to a further `:`).
pub open spec fn chapter_of(id: Seq<u8>) -> Result<(Seq<u8>, Seq<u8>), crate::sources::site::ChapterPathError> {
    match crate::sources::site::id_rest(id, "chapter:".spec_bytes()) {
        None => Err(crate::sources::site::ChapterPathError::Unexpected),
        Some(rest) => match find(rest, ":".spec_bytes()) {
            None => Err(crate::sources::site::ChapterPathError::MissingSeparator),
            Some(p) => {
                let tail = rest.skip(p + 1);
                Ok((
                    rest.take(p),
                    match find(tail, ":".spec_bytes()) {
                        Some(q) => tail.take(q),
                        None => tail,
                    },
                ))
            },
        },
    }
}

/// The manga and the cid a chapter id names, or why it names none.
pub fn chapter_of_id(chapter_id: &[u8]) -> (r: Result<(&[u8], &[u8]), crate::sources::site::ChapterPathError>)
    ensures
        match r {
            Ok((m, c)) => chapter_of(chapter_id@) == Ok::<(Seq<u8>, Seq<u8>), crate::sources::site::ChapterPathError>((m@, c@)),
            Err(e) => chapter_of(chapter_id@) == Err::<(Seq<u8>, Seq<u8>), crate::sources::site::ChapterPathError>(e),
        },
{
    let rest = match crate::sources::site::rest_after(chapter_id, "chapter:".as_bytes()) {
        Some(v) => v,
        None => {
            return Err(crate::sources::site::ChapterPathError::Unexpected);
        },
    };
    proof {
        reveal_strlit(":");
        broadcast use vstd::string::is_ascii_spec_bytes;
        assert(vstd::string::is_ascii(":"));
    }
    let p = match find_subslice(rest, ":".as_bytes()) {
        Some(p) => p,
        None => {
            return Err(crate::sources::site::ChapterPathError::MissingSeparator);
        },
    };
    let rl: usize = rest.len();
    assert(p + 1 <= rl);
    let manga = slice_subrange(rest, 0, p);
    let tail = slice_subrange(rest, p + 1, rest.len());
    assert(manga@ =~= rest@.take(p as int));
    assert(tail@ =~= rest@.skip(p + 1));
    let cid = match find_subslice(tail, ":".as_bytes()) {
        Some(q) => {
            let c = slice_subrange(tail, 0, q);
            assert(c@ =~= tail@.take(q as int));
            c
        },
        None => tail,
    };
    Ok((manga, cid))
}

/// What a chapter id carries after its cid and a further `:` (the page
/// count it was listed with), when it carries that.
pub open spec fn chapter_extra(id: Seq<u8>) -> Option<Seq<u8>> {
    match crate::sources::site::id_rest(id, "chapter:".spec_bytes()) {
        None => None,
        Some(rest) => match find(rest, ":".spec_bytes()) {
            None => None,
            Some(p) => {
                let tail = rest.skip(p + 1);
                match find(tail, ":".spec_bytes()) {
                    Some(q) => Some(tail.skip(q + 1)),
                    None => None,
                }
            },
        },
    }
}

/// The text after the cid of a chapter id, when there is such a part.
pub fn chapter_extra_of(chapter_id: &[u8]) -> (r: Option<&[u8]>)
    ensures
        match r {
            Some(v) => chapter_extra(chapter_id@) == Some(v@),
            None => chapter_extra(chapter_id@) is None,
        },
{
    let rest = match crate::sources::site::rest_after(chapter_id, "chapter:".as_bytes()) {
        Some(v) => v,
        None => {
            return None;
        },
    };
    proof {
        reveal_strlit(":");
        broadcast use vstd::string::is_ascii_spec_bytes;
        assert(vstd::string::is_ascii(":"));
    }
    let p = match find_subslice(rest, ":".as_bytes()) {
        Some(p) => p,
        None => {
            return None;
        },
    };
    let rl: usize = rest.len();
    assert(p + 1 <= rl);
    let tail = slice_subrange(rest, p + 1, rest.len());
    assert(tail@ =~= rest@.skip(p + 1));
    let tl: usize = tail.len();
    match find_subslice(tail, ":".as_bytes()) {
        Some(q) => {
            assert(q + 1 <= tl);
            let e = slice_subrange(tail, q + 1, tail.len());
            assert(e@ =~= tail@.skip(q + 1));
            Some(e)
        },
        None => None,
    }
}

/// Whether the decoded `bodyText` of a reply, if it has one, leaves three
/// bytes of a `cap`-byte buffer free.
pub open spec fn body_leaves_room(resp: Seq<u8>, cap: nat) -> bool {
    match find(resp, BODY_MARKER.spec_bytes()) {
        None => true,
        Some(p) => match crate::fetch::body_text_from(resp, p + BODY_MARKER.spec_bytes().len()) {
            Some(out) => out.len() + 3 <= cap,
            None => true,
        },
    }
}

proof fn lemma_room_from_text(resp: Seq<u8>, i: int, n: int, cap: int)
    requires
        crate::fetch::body_text_from(resp, i) is Some,
        n + crate::fetch::body_text_from(resp, i).unwrap().len() + 3 <= cap,
    ensures
        unicode_room(resp, i, n, cap),
    decreases resp.len() - i,
{
    if 0 <= i < resp.len() {
        if resp[i] == 92 && i + 1 < resp.len() {
            if resp[i + 1] == 117 {
                if !(i + 5 >= resp.len() || !all_hex(resp.subrange(i + 2, i + 6))) {
                    lemma_room_from_text(
                        resp,
                        i + 6,
                        n + utf8_encode(hex_number(resp.subrange(i + 2, i + 6)) as u32).len(),
                        cap,
                    );
                }
            } else {
                lemma_room_from_text(resp, i + 2, n + 1, cap);
            }
        } else if resp[i] != 34 {
            lemma_room_from_text(resp, i + 1, n + 1, cap);
        }
    }
}

proof fn lemma_status_digits_value(s: Seq<u8>)
    requires
        forall|k: int| 0 <= k <= s.len() ==> #[trigger] status_digits(s.take(k)) <= 65535,
    ensures
        status_digits(s) == crate::fetch::status_value(s),
    decreases s.len(),
{
    if s.len() > 0 {
        let t = s.drop_last();
        assert forall|k: int| 0 <= k <= t.len() implies #[trigger] status_digits(t.take(k)) <= 65535 by {
            assert(t.take(k) =~= s.take(k));
        }
        lemma_status_digits_value(t);
        assert(s.take(s.len() as int) =~= s);
        assert(s.take(t.len() as int) =~= t);
        assert(status_digits(t) <= 65535);
    }
}

/// The source's reply decoder gives what the shared decoder gives,
/// wherever the status code reads as a 16-bit number digit by digit and
/// the body leaves three bytes of the buffer free.
pub proof fn law_reply_body_matches_shared_decoder(resp: Seq<u8>, cap: nat)
    requires
        status_fits(resp),
        body_leaves_room(resp, cap),
    ensures
        reply_body(resp, cap) == crate::fetch::decoded_body(resp, cap),
{
    if !(exists|i: int| matches_at(resp, OK_MARKER.spec_bytes(), i)) {
        match json_number_value(resp, "statusCode".spec_bytes()) {
            Some(code) => {
                lemma_status_digits_value(code);
            },
            None => {},
        }
    } else {
        match find(resp, BODY_MARKER.spec_bytes()) {
            None => {},
            Some(p) => {
                let st = p + BODY_MARKER.spec_bytes().len();
                match crate::fetch::body_text_from(resp, st) {
                    Some(out) => {
                        if out.len() <= cap {
                            lemma_room_from_text(resp, st, 0, cap as int);
                        }
                    },
                    None => {},
                }
            },
        }
    }
}

/// What the two decoders return, and leave in a buffer on success, is
/// the same: for any reply whose status code reads as a 16-bit number and
/// whose body leaves three bytes free, given the outcome `(r1, d1)` of
/// [`decode_json_body`] and `(r2, d2)` of the shared
/// `decode_json_body_into` on the same buffer `d0`.
pub proof fn law_decoders_agree(
    resp: Seq<u8>,
    d0: Seq<u8>,
    r1: Result<usize, FetchError>,
    d1: Seq<u8>,
    r2: Result<usize, FetchError>,
    d2: Seq<u8>,
)
    requires
        status_fits(resp),
        body_leaves_room(resp, d0.len()),
        d1.len() == d0.len(),
        d2.len() == d0.len(),
        match r1 {
            Ok(n) => n <= d0.len() && reply_body(resp, d0.len()) == Ok::<Seq<u8>, FetchError>(d1.take(n as int))
                && d1.skip(n as int) == d0.skip(n as int),
            Err(e) => reply_body(resp, d0.len()) == Err::<Seq<u8>, FetchError>(e),
        },
        match r2 {
            Ok(n) => n <= d0.len() && crate::fetch::decoded_body(resp, d0.len()) == Ok::<Seq<u8>, FetchError>(
                d2.take(n as int),
            ) && d2.skip(n as int) == d0.skip(n as int),
            Err(e) => crate::fetch::decoded_body(resp, d0.len()) == Err::<Seq<u8>, FetchError>(e),
        },
    ensures
        r1 == r2,
        r1 is Ok ==> d1 == d2,
{
    law_reply_body_matches_shared_decoder(resp, d0.len());
    match r1 {
        Ok(n) => {
            assert(d1 =~= d1.take(n as int) + d1.skip(n as int));
            assert(d2 =~= d2.take(n as int) + d2.skip(n as int));
        },
        Err(_) => {},
    }
}

} // verus!
