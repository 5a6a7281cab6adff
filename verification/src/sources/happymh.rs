//! The HappyMH source: bracket-balanced JSON extraction, verification-page
//! detection, its id formats, and the manga cards it lists.
use vstd::prelude::*;
use vstd::slice::slice_subrange;
use vstd::string::StringSliceAdditionalSpecFns;
use crate::json_utils::{
    appended, contains_bytes, escaped, extract_json_number, extract_json_string, find,
    find_subslice, json_number_value, json_string_value, key_pattern, key_pattern_vec, matches_at,
    skip_while, ws_fn,
};
use crate::pieces::{pieces_bytes, put_pieces, Piece};
use crate::units::{byte_units, wrote_units};
use crate::sources::bh3::has_prefix;
use crate::sources::text::{all_digits, digits_fit, digits_value};

verus! {

/// Whether a reply is the site's browser check rather than its content.
pub open spec fn is_verification_spec(body: Seq<u8>) -> bool {
    exists|i: int|
        matches_at(body, "<!doctype html".spec_bytes(), i) || matches_at(body, "<html".spec_bytes(), i)
            || matches_at(body, "cf-mitigated".spec_bytes(), i) || matches_at(body, "人机验证".spec_bytes(), i)
}

pub fn is_verification_page(body: &[u8]) -> (r: bool)
    ensures
        r == is_verification_spec(body@),
{
    proof {
        reveal_strlit("<!doctype html");
        reveal_strlit("<html");
        reveal_strlit("cf-mitigated");
        reveal_strlit("人机验证");
    }
    let r = contains_bytes(body, "<!doctype html".as_bytes()) || contains_bytes(body, "<html".as_bytes())
        || contains_bytes(body, "cf-mitigated".as_bytes()) || contains_bytes(body, "人机验证".as_bytes());
    proof {
        if r {
            if contains_bytes_spec(body@, "<!doctype html".spec_bytes()) {
                let i = choose|i: int| matches_at(body@, "<!doctype html".spec_bytes(), i);
                assert(matches_at(body@, "<!doctype html".spec_bytes(), i));
            }
        }
    }
    r
}

pub open spec fn contains_bytes_spec(h: Seq<u8>, n: Seq<u8>) -> bool {
    n.len() > 0 && exists|i: int| matches_at(h, n, i)
}

/// A positive decimal number, else `default` (for an empty, non-decimal
/// or zero text).
pub open spec fn usize_or(bytes: Seq<u8>, default: nat) -> nat {
    if bytes.len() == 0 || !all_digits(bytes) || digits_value(bytes) == 0 {
        default
    } else {
        digits_value(bytes)
    }
}

pub fn parse_usize(bytes: &[u8], default: usize) -> (r: usize)
    requires
        digits_fit(bytes@, usize::MAX as nat),
    ensures
        r == usize_or(bytes@, default as nat),
{
    if bytes.len() == 0 {
        return default;
    }
    let mut n: usize = 0;
    let mut i: usize = 0;
    while i < bytes.len()
        invariant
            0 <= i <= bytes@.len(),
            all_digits(bytes@.take(i as int)),
            n == digits_value(bytes@.take(i as int)),
            digits_fit(bytes@, usize::MAX as nat),
        decreases bytes@.len() - i,
    {
        let b = bytes[i];
        if b < 48 || b > 57 {
            assert(!all_digits(bytes@)) by {
                assert(bytes@[i as int] == b);
            }
            return default;
        }
        proof {
            crate::sources::text::lemma_all_digits_step(bytes@, i as int);
            assert(digits_value(bytes@.take(i + 1)) <= usize::MAX);
        }
        n = n * 10 + (b - 48) as usize;
        i = i + 1;
    }
    assert(bytes@.take(bytes@.len() as int) =~= bytes@);
    if n == 0 {
        default
    } else {
        n
    }
}

/// The value of a digit prefix is at most that of the whole run.
pub proof fn lemma_digits_prefix_le(s: Seq<u8>, k: int)
    requires
        0 <= k <= s.len(),
        all_digits(s.take(k)),
    ensures
        all_digits(s) ==> digits_value(s.take(k)) <= digits_value(s),
    decreases s.len() - k,
{
    if k < s.len() && all_digits(s) {
        crate::sources::text::lemma_all_digits_step(s, k);
        lemma_digits_prefix_le(s, k + 1);
    } else if k == s.len() {
        assert(s.take(k) =~= s);
    }
}

/// The page a request asks for: its `page`, else its `cursor`, else 1.
pub open spec fn request_page_of(req: Seq<u8>) -> nat {
    match json_number_value(req, "page".spec_bytes()) {
        Some(n) => usize_or(n, 1),
        None => match json_string_value(req, "cursor".spec_bytes()) {
            Some(c) => usize_or(c, 1),
            None => 1,
        },
    }
}

/// Whether the numbers a request carries fit a `usize`.
pub open spec fn request_page_fits(req: Seq<u8>) -> bool {
    &&& json_number_value(req, "page".spec_bytes()) matches Some(n) ==> digits_fit(n, usize::MAX as nat)
    &&& json_number_value(req, "page".spec_bytes()) is None ==> (json_string_value(req, "cursor".spec_bytes()) matches Some(
        c,
    ) ==> digits_fit(c, usize::MAX as nat))
}

pub fn request_page(req: &[u8]) -> (r: usize)
    requires
        request_page_fits(req@),
    ensures
        r == request_page_of(req@),
{
    if let Some(n) = extract_json_number(req, "page".as_bytes()) {
        return parse_usize(n, 1);
    }
    if let Some(c) = extract_json_string(req, "cursor".as_bytes()) {
        return parse_usize(c, 1);
    }
    1
}

/// Where the bracket that closes the one opened before `p` stands, with
/// `depth` brackets open and `in_str` telling whether `p` is inside a
/// string; only `open` and `close` count, strings and escapes respected.
pub open spec fn balanced_from(data: Seq<u8>, p: int, depth: int, in_str: bool, open: u8, close: u8) -> Option<int>
    decreases data.len() + 2 - p,
{
    if p < 0 || p >= data.len() {
        None
    } else if in_str {
        if data[p] == 92 {
            balanced_from(data, p + 2, depth, true, open, close)
        } else if data[p] == 34 {
            balanced_from(data, p + 1, depth, false, open, close)
        } else {
            balanced_from(data, p + 1, depth, true, open, close)
        }
    } else if data[p] == 34 {
        balanced_from(data, p + 1, depth, true, open, close)
    } else if data[p] == open {
        balanced_from(data, p + 1, depth + 1, false, open, close)
    } else if data[p] == close {
        if depth - 1 == 0 {
            Some(p)
        } else {
            balanced_from(data, p + 1, depth - 1, false, open, close)
        }
    } else {
        balanced_from(data, p + 1, depth, false, open, close)
    }
}

/// The text from `start` to the bracket that balances it.
pub open spec fn balanced_of(data: Seq<u8>, start: int, open: u8, close: u8) -> Option<Seq<u8>> {
    match balanced_from(data, start, 0, false, open, close) {
        Some(e) => Some(data.subrange(start, e + 1)),
        None => None,
    }
}

pub fn extract_balanced(data: &[u8], start: usize, open: u8, close: u8) -> (r: Option<&[u8]>)
    requires
        data@.len() < i64::MAX,
        data@.len() < usize::MAX,
        start <= data@.len(),
    ensures
        match r {
            Some(v) => balanced_of(data@, start as int, open, close) == Some(v@) && v@.len() <= data@.len(),
            None => balanced_of(data@, start as int, open, close) is None,
        },
{
    let mut pos = start;
    let mut depth: i64 = 0;
    let mut in_string = false;
    while pos < data.len()
        invariant
            data@.len() < i64::MAX,
            data@.len() < usize::MAX,
            start <= pos <= data@.len() + 1,
            -(pos - start) <= depth <= pos - start,
            balanced_from(data@, start as int, 0, false, open, close) == balanced_from(
                data@,
                pos as int,
                depth as int,
                in_string,
                open,
                close,
            ),
        decreases data@.len() + 2 - pos,
    {
        let b = data[pos];
        assert(pos < data.len());
        if in_string {
            if b == 92 {
                pos = pos + 1;
            } else if b == 34 {
                in_string = false;
            }
        } else {
            if b == 34 {
                in_string = true;
            } else if b == open {
                depth = depth + 1;
            } else if b == close {
                depth = depth - 1;
                if depth == 0 {
                    return Some(slice_subrange(data, start, pos + 1));
                }
            }
        }
        pos = pos + 1;
    }
    None
}

/// Where the value of the first `"key":` starts, past whitespace.
pub open spec fn value_start_of(data: Seq<u8>, key: Seq<u8>) -> Option<int> {
    if key.len() + 3 > 64 {
        None
    } else {
        match find(data, key_pattern(key, seq![58u8])) {
            None => None,
            Some(p) => Some(skip_while(data, p + key.len() + 3, ws_fn())),
        }
    }
}

fn value_start(data: &[u8], key: &[u8]) -> (r: Option<usize>)
    ensures
        match r {
            Some(i) => value_start_of(data@, key@) == Some(i as int) && i <= data@.len(),
            None => value_start_of(data@, key@) is None,
        },
{
    if key.len() > 61 {
        return None;
    }
    let tail: [u8; 1] = [58];
    let pattern = key_pattern_vec(key, &tail);
    assert(tail@ =~= seq![58u8]);
    let p = match find_subslice(data, pattern.as_slice()) {
        Some(v) => v,
        None => return None,
    };
    let ghost ws = ws_fn();
    assert(p + pattern@.len() <= data@.len());
    assert(p + key.len() + 3 <= data.len());
    let mut pos: usize = p + key.len() + 3;
    let ghost p0 = pos as int;
    while pos < data.len() && (data[pos] == 32 || data[pos] == 9 || data[pos] == 10 || data[pos] == 13)
        invariant
            p0 <= pos <= data@.len(),
            ws == ws_fn(),
            skip_while(data@, p0, ws) == skip_while(data@, pos as int, ws),
        decreases data@.len() - pos,
    {
        pos = pos + 1;
    }
    Some(pos)
}

/// The object stored under the first `"key":`.
pub open spec fn object_for_key_of(data: Seq<u8>, key: Seq<u8>) -> Option<Seq<u8>> {
    match value_start_of(data, key) {
        None => None,
        Some(pos) => if pos >= data.len() || data[pos] != 123 {
            None
        } else {
            balanced_of(data, pos, 123, 125)
        },
    }
}

pub fn extract_object_for_key<'a>(data: &'a [u8], key: &[u8]) -> (r: Option<&'a [u8]>)
    requires
        data@.len() < i64::MAX,
        data@.len() < usize::MAX,
    ensures
        match r {
            Some(v) => object_for_key_of(data@, key@) == Some(v@) && v@.len() <= data@.len(),
            None => object_for_key_of(data@, key@) is None,
        },
{
    let pos = match value_start(data, key) {
        Some(p) => p,
        None => return None,
    };
    if pos >= data.len() || data[pos] != 123 {
        return None;
    }
    extract_balanced(data, pos, 123, 125)
}

/// The inside of the array stored under the first `"key":`.
pub open spec fn array_for_key_of(data: Seq<u8>, key: Seq<u8>) -> Option<Seq<u8>> {
    match value_start_of(data, key) {
        None => None,
        Some(pos) => if pos >= data.len() || data[pos] != 91 {
            None
        } else {
            match balanced_of(data, pos, 91, 93) {
                Some(v) => Some(v.subrange(1, v.len() - 1)),
                None => None,
            }
        },
    }
}

proof fn lemma_balanced_after(data: Seq<u8>, p: int, depth: int, in_str: bool, open: u8, close: u8)
    ensures
        match balanced_from(data, p, depth, in_str, open, close) {
            Some(e) => p <= e < data.len(),
            None => true,
        },
    decreases data.len() + 2 - p,
{
    if 0 <= p < data.len() {
        if in_str {
            if data[p] == 92 {
                lemma_balanced_after(data, p + 2, depth, true, open, close);
            } else if data[p] == 34 {
                lemma_balanced_after(data, p + 1, depth, false, open, close);
            } else {
                lemma_balanced_after(data, p + 1, depth, true, open, close);
            }
        } else if data[p] == 34 {
            lemma_balanced_after(data, p + 1, depth, true, open, close);
        } else if data[p] == open {
            lemma_balanced_after(data, p + 1, depth + 1, false, open, close);
        } else if data[p] == close {
            if depth - 1 != 0 {
                lemma_balanced_after(data, p + 1, depth - 1, false, open, close);
            }
        } else {
            lemma_balanced_after(data, p + 1, depth, false, open, close);
        }
    }
}

pub fn extract_array_for_key<'a>(data: &'a [u8], key: &[u8]) -> (r: Option<&'a [u8]>)
    requires
        data@.len() < i64::MAX,
        data@.len() < usize::MAX,
    ensures
        match r {
            Some(v) => array_for_key_of(data@, key@) == Some(v@) && v@.len() <= data@.len(),
            None => array_for_key_of(data@, key@) is None,
        },
{
    let pos = match value_start(data, key) {
        Some(p) => p,
        None => return None,
    };
    if pos >= data.len() || data[pos] != 91 {
        return None;
    }
    proof {
        assert(balanced_from(data@, pos as int, 0, false, 91, 93) == balanced_from(data@, pos + 1, 1, false, 91, 93));
        lemma_balanced_after(data@, pos + 1, 1, false, 91, 93);
    }
    match extract_balanced(data, pos, 91, 93) {
        Some(v) => {
            assert(v@.len() >= 2);
            Some(slice_subrange(v, 1, v.len() - 1))
        },
        None => None,
    }
}

pub open spec fn raw_sep_fn() -> spec_fn(u8) -> bool {
    |b: u8| crate::json_utils::is_ws(b) || b == 44
}

/// The next object of an array from `pos` and where reading stops:
/// whitespace and commas are skipped; anything but `{` ends the array.
pub open spec fn next_raw_spec(data: Seq<u8>, pos: int) -> (Option<Seq<u8>>, int) {
    let q = skip_while(data, pos, raw_sep_fn());
    if q >= data.len() || data[q] != 123 {
        (None, q)
    } else {
        match balanced_of(data, q, 123, 125) {
            Some(v) => (Some(v), q + v.len()),
            None => (None, q),
        }
    }
}

pub fn next_raw_object<'a>(data: &'a [u8], pos: &mut usize) -> (r: Option<&'a [u8]>)
    requires
        data@.len() < i64::MAX,
        data@.len() < usize::MAX,
        *old(pos) <= data@.len(),
    ensures
        *final(pos) == next_raw_spec(data@, *old(pos) as int).1,
        *final(pos) <= data@.len(),
        match r {
            Some(v) => next_raw_spec(data@, *old(pos) as int).0 == Some(v@),
            None => next_raw_spec(data@, *old(pos) as int).0 is None,
        },
{
    let ghost sep = raw_sep_fn();
    let ghost p0 = *pos as int;
    while *pos < data.len() && (data[*pos] == 32 || data[*pos] == 9 || data[*pos] == 10 || data[*pos] == 13
        || data[*pos] == 44)
        invariant
            sep == raw_sep_fn(),
            p0 <= *pos <= data@.len(),
            skip_while(data@, p0, sep) == skip_while(data@, *pos as int, sep),
        decreases data@.len() - *pos,
    {
        *pos = *pos + 1;
    }
    if *pos >= data.len() || data[*pos] != 123 {
        return None;
    }
    let obj = match extract_balanced(data, *pos, 123, 125) {
        Some(o) => o,
        None => return None,
    };
    proof {
        lemma_balanced_after(data@, *pos as int, 0, false, 123, 125);
    }
    *pos = *pos + obj.len();
    Some(obj)
}

/// Whether `"key":true` occurs in `data` (keys longer than 56 bytes never
/// match).
pub open spec fn is_json_true_spec(data: Seq<u8>, key: Seq<u8>) -> bool {
    key.len() + 8 <= 64 && exists|i: int| matches_at(data, key_pattern(key, ":true".spec_bytes()), i)
}

pub fn is_json_true(data: &[u8], key: &[u8]) -> (r: bool)
    ensures
        r == is_json_true_spec(data@, key@),
{
    if key.len() > 56 {
        return false;
    }
    let pattern = key_pattern_vec(key, ":true".as_bytes());
    contains_bytes(data, pattern.as_slice())
}

/// The code of a `manga:` id.
pub open spec fn manga_code_of(id: Seq<u8>) -> Option<Seq<u8>> {
    if id.len() > 6 && has_prefix(id, "manga:".spec_bytes()) {
        Some(id.skip(6))
    } else {
        None
    }
}

pub fn manga_url_to_code<'a>(id: &'a [u8]) -> (r: Option<&'a [u8]>)
    ensures
        match r {
            Some(v) => manga_code_of(id@) == Some(v@),
            None => manga_code_of(id@) is None,
        },
{
    proof {
        reveal_strlit("manga:");
    }
    if id.len() > 6 && crate::sources::bh3::starts_with(id, "manga:".as_bytes()) {
        let v = slice_subrange(id, 6, id.len());
        assert(v@ =~= id@.skip(6));
        Some(v)
    } else {
        None
    }
}

/// The three colon-separated parts of a `chapter:` id (the last one may
/// hold colons).
pub open spec fn chapter_parts_of(id: Seq<u8>) -> Option<(Seq<u8>, Seq<u8>, Seq<u8>)> {
    if id.len() <= 8 || !has_prefix(id, "chapter:".spec_bytes()) {
        None
    } else {
        let rest = id.skip(8);
        match find(rest, ":".spec_bytes()) {
            None => None,
            Some(f) => {
                let tail = rest.skip(f + 1);
                match find(tail, ":".spec_bytes()) {
                    None => None,
                    Some(s) => Some((rest.take(f), tail.take(s), tail.skip(s + 1))),
                }
            },
        }
    }
}

pub fn chapter_id_parts<'a>(id: &'a [u8]) -> (r: Option<(&'a [u8], &'a [u8], &'a [u8])>)
    ensures
        match r {
            Some((a, b, c)) => chapter_parts_of(id@) == Some((a@, b@, c@)),
            None => chapter_parts_of(id@) is None,
        },
{
    proof {
        reveal_strlit("chapter:");
        reveal_strlit(":");
    }
    if id.len() <= 8 || !crate::sources::bh3::starts_with(id, "chapter:".as_bytes()) {
        return None;
    }
    let rest = slice_subrange(id, 8, id.len());
    assert(rest@ =~= id@.skip(8));
    let first = match find_subslice(rest, ":".as_bytes()) {
        Some(v) => v,
        None => return None,
    };
    let code = slice_subrange(rest, 0, first);
    let tail = slice_subrange(rest, first + 1, rest.len());
    assert(code@ =~= rest@.take(first as int));
    assert(tail@ =~= rest@.skip(first + 1));
    let second = match find_subslice(tail, ":".as_bytes()) {
        Some(v) => v,
        None => return None,
    };
    let a = slice_subrange(tail, 0, second);
    let b = slice_subrange(tail, second + 1, tail.len());
    assert(a@ =~= tail@.take(second as int));
    assert(b@ =~= tail@.skip(second + 1));
    Some((code, a, b))
}

pub const CARD_TAIL: &'static str =
    "\"},\"authors\":[],\"status\":\"unknown\",\"contentRating\":\"safe\",\"description\":\"\",\"sourceTags\":[";

/// The code a listed manga object carries: its `manga_code`, else `code`,
/// else none.
pub open spec fn card_code_of(obj: Seq<u8>) -> Seq<u8> {
    match json_string_value(obj, "manga_code".spec_bytes()) {
        Some(c) => c,
        None => match json_string_value(obj, "code".spec_bytes()) {
            Some(c) => c,
            None => Seq::empty(),
        },
    }
}

/// The card of a listed manga object (nothing for one without a code).
pub open spec fn card_json(obj: Seq<u8>, tag: Seq<u8>) -> Seq<u8> {
    let code = card_code_of(obj);
    if code.len() == 0 {
        Seq::empty()
    } else {
        let title = match json_string_value(obj, "name".spec_bytes()) {
            Some(t) => t,
            None => code,
        };
        let cover = match json_string_value(obj, "cover".spec_bytes()) {
            Some(c) => c,
            None => Seq::empty(),
        };
        "{\"id\":\"manga:".spec_bytes() + escaped(code) + "\",\"title\":\"".spec_bytes() + escaped(title)
            + "\",\"cover\":{\"kind\":\"url\",\"url\":\"".spec_bytes() + escaped(cover) + CARD_TAIL.spec_bytes()
            + "\"".spec_bytes() + escaped(tag) + "\"]}".spec_bytes()
    }
}

/// The units a card is written in (none for an object without a code).
pub open spec fn card_units(obj: Seq<u8>, tag: Seq<u8>) -> Seq<Seq<u8>> {
    let code = card_code_of(obj);
    if code.len() == 0 {
        Seq::empty()
    } else {
        let title = match json_string_value(obj, "name".spec_bytes()) {
            Some(t) => t,
            None => code,
        };
        let cover = match json_string_value(obj, "cover".spec_bytes()) {
            Some(c) => c,
            None => Seq::empty(),
        };
        let e = crate::json_utils::escape_fn();
        seq!["{\"id\":\"manga:".spec_bytes()] + byte_units(code, e) + seq!["\",\"title\":\"".spec_bytes()]
            + byte_units(title, e) + seq!["\",\"cover\":{\"kind\":\"url\",\"url\":\"".spec_bytes()] + byte_units(cover, e)
            + seq![CARD_TAIL.spec_bytes()] + seq!["\"".spec_bytes()] + byte_units(tag, e) + seq!["\"]}".spec_bytes()]
    }
}

pub fn write_manga_card(payload: &mut [u8], c: &mut usize, obj: &[u8], tag: &[u8]) -> (ok: bool)
    requires
        *old(c) <= old(payload)@.len(),
    ensures
        appended(old(payload)@, *old(c) as int, card_json(obj@, tag@), final(payload)@, *final(c) as int, ok),
        wrote_units(old(payload)@, *old(c) as int, card_units(obj@, tag@), final(payload)@, *final(c) as int, ok),
        final(payload)@.len() == old(payload)@.len(),
        *final(c) <= final(payload)@.len(),
{
    proof {
        reveal_strlit("");
    }
    let code = match extract_json_string(obj, "manga_code".as_bytes()) {
        Some(v) => v,
        None => match extract_json_string(obj, "code".as_bytes()) {
            Some(v) => v,
            None => "".as_bytes(),
        },
    };
    if code.len() == 0 {
        assert(payload@ =~= crate::json_utils::splice(payload@, *c as int, Seq::<u8>::empty()));
        proof {
            assert(card_units(obj@, tag@) =~= Seq::<Seq<u8>>::empty());
            assert(crate::units::fitting(Seq::<Seq<u8>>::empty(), payload@.len() - *c) =~= Seq::<u8>::empty());
            assert(crate::units::cat(Seq::<Seq<u8>>::empty()) =~= Seq::<u8>::empty());
        }
        return true;
    }
    let title = match extract_json_string(obj, "name".as_bytes()) {
        Some(t) => t,
        None => code,
    };
    let cover = match extract_json_string(obj, "cover".as_bytes()) {
        Some(v) => v,
        None => "".as_bytes(),
    };
    let ps = [
        Piece::Text("{\"id\":\"manga:"),
        Piece::Escaped(code),
        Piece::Text("\",\"title\":\""),
        Piece::Escaped(title),
        Piece::Text("\",\"cover\":{\"kind\":\"url\",\"url\":\""),
        Piece::Escaped(cover),
        Piece::Text(CARD_TAIL),
        Piece::Text("\""),
        Piece::Escaped(tag),
        Piece::Text("\"]}"),
    ];
    proof {
        reveal_with_fuel(pieces_bytes, 11);
        assert(pieces_bytes(ps@) =~= card_json(obj@, tag@));
        reveal_with_fuel(crate::pieces::pieces_units, 11);
        assert(crate::pieces::pieces_units(ps@) =~= card_units(obj@, tag@));
    }
    put_pieces(payload, c, &ps)
}

} // verus!
