//! The Manhuagui source: its manga ids and URLs, the cards it lists, and
//! the page list it reads from the reader's script (JavaScript escapes
//! undone, the image JSON found and walked).
use vstd::prelude::*;
use vstd::slice::slice_subrange;
use vstd::string::StringSliceAdditionalSpecFns;
use crate::fetch::{body_text_result, FetchError};
use crate::json_utils::{
    all_hex, appended, escaped, extract_json_number, extract_json_string, find, find_subslice,
    hex_number, is_hex, json_number_value, json_string_value, matches_at, splice,
};
use crate::pieces::{pieces_bytes, pieces_units, put_pieces, Piece};
use crate::units::{byte_units, lemma_wrote_fail_extend, lemma_wrote_then, wrote_units};
use crate::sources::bh3::{has_prefix, starts_with};
use crate::sources::text::{all_digits, digits_fit, parse_decimal, trimmed};

verus! {

pub const BASE_URL: &'static str = "https://www.manhuagui.com";

pub const MOBILE_URL: &'static str = "https://m.manhuagui.com";

/// Value of a hexadecimal digit.
pub open spec fn hex_digit_value(b: u8) -> Option<u32> {
    if 48 <= b <= 57 {
        Some((b - 48) as u32)
    } else if 97 <= b <= 102 {
        Some((b - 87) as u32)
    } else if 65 <= b <= 70 {
        Some((b - 55) as u32)
    } else {
        None
    }
}

pub fn hex_value(b: u8) -> (r: Option<u32>)
    ensures
        r == hex_digit_value(b),
{
    if b >= 48 && b <= 57 {
        Some((b - 48) as u32)
    } else if b >= 97 && b <= 102 {
        Some((b - 87) as u32)
    } else if b >= 65 && b <= 70 {
        Some((b - 55) as u32)
    } else {
        None
    }
}

/// The bytes a code point is written as: one, two or three bytes of UTF-8
/// (a code above 0xFFFF is cut to three bytes).
pub open spec fn utf8_bytes(code: u32) -> Seq<u8> {
    if code < 0x80 {
        seq![code as u8]
    } else if code < 0x800 {
        seq![(0xC0u8 | ((code >> 6u32) as u8)), (0x80u8 | ((code & 0x3Fu32) as u8))]
    } else {
        seq![
            (0xE0u8 | ((code >> 12u32) as u8)),
            (0x80u8 | (((code >> 6u32) & 0x3Fu32) as u8)),
            (0x80u8 | ((code & 0x3Fu32) as u8)),
        ]
    }
}

/// Writes a code point as UTF-8 at `*c` when it fits.
pub fn write_utf8(dst: &mut [u8], c: &mut usize, code: u32) -> (ok: bool)
    requires
        *old(c) <= old(dst)@.len(),
    ensures
        ok == (*old(c) + utf8_bytes(code).len() <= old(dst)@.len()),
        ok ==> final(dst)@ == splice(old(dst)@, *old(c) as int, utf8_bytes(code)) && *final(c) == *old(c)
            + utf8_bytes(code).len(),
        !ok ==> final(dst)@ == old(dst)@ && *final(c) == *old(c),
{
    let ghost d0 = dst@;
    let ghost c0 = *c as int;
    if code < 0x80 {
        if *c >= dst.len() {
            return false;
        }
        dst[*c] = code as u8;
        *c = *c + 1;
    } else if code < 0x800 {
        if dst.len() < 2 || *c > dst.len() - 2 {
            return false;
        }
        dst[*c] = 0xC0u8 | ((code >> 6u32) as u8);
        dst[*c + 1] = 0x80u8 | ((code & 0x3Fu32) as u8);
        *c = *c + 2;
    } else {
        if dst.len() < 3 || *c > dst.len() - 3 {
            return false;
        }
        dst[*c] = 0xE0u8 | ((code >> 12u32) as u8);
        dst[*c + 1] = 0x80u8 | (((code >> 6u32) & 0x3Fu32) as u8);
        dst[*c + 2] = 0x80u8 | ((code & 0x3Fu32) as u8);
        *c = *c + 3;
    }
    assert(dst@ =~= splice(d0, c0, utf8_bytes(code)));
    true
}

/// Decodes the `bodyText` of a host HTTP reply into `dst`.
pub fn decode_body_text(resp: &[u8], dst: &mut [u8]) -> (r: Result<usize, FetchError>)
    ensures
        final(dst)@.len() == old(dst)@.len(),
        match r {
            Ok(n) => n <= old(dst)@.len() && body_text_result(resp@, old(dst)@.len()) == Ok::<
                Seq<u8>,
                FetchError,
            >(final(dst)@.take(n as int)) && final(dst)@.skip(n as int) == old(dst)@.skip(n as int),
            Err(e) => body_text_result(resp@, old(dst)@.len()) == Err::<Seq<u8>, FetchError>(e),
        },
{
    crate::fetch::decode_body_text(resp, dst)
}

/// A non-empty run of decimal digits read as a number.
pub fn parse_usize(bytes: &[u8]) -> (r: Option<usize>)
    requires
        digits_fit(bytes@, usize::MAX as nat),
    ensures
        match r {
            Some(n) => parse_decimal(bytes@) == Some(n as nat),
            None => parse_decimal(bytes@) is None,
        },
{
    crate::sources::text::parse_decimal_exec(bytes)
}

/// The page a request asks for: its `page` when a number, at least 1.
pub open spec fn page_of(req: Seq<u8>) -> nat {
    match json_number_value(req, "page".spec_bytes()) {
        Some(n) => match parse_decimal(n) {
            Some(v) => if v == 0 {
                1
            } else {
                v
            },
            None => 1,
        },
        None => 1,
    }
}

pub fn page_from_request(req: &[u8]) -> (r: usize)
    requires
        json_number_value(req@, "page".spec_bytes()) matches Some(n) ==> digits_fit(n, usize::MAX as nat),
    ensures
        r == page_of(req@),
{
    let n = match extract_json_number(req, "page".as_bytes()) {
        Some(b) => match parse_usize(b) {
            Some(v) => v,
            None => 1,
        },
        None => 1,
    };
    if n < 1 {
        1
    } else {
        n
    }
}

/// The id a manga request names: the part after `manga:`, or the id as it
/// is when it starts with `comic/` or is all digits.
pub open spec fn normalized_id_of(id: Seq<u8>) -> Option<Seq<u8>> {
    if has_prefix(id, "manga:".spec_bytes()) {
        Some(id.skip(6))
    } else if has_prefix(id, "comic/".spec_bytes()) {
        Some(id)
    } else if all_digits(id) {
        Some(id)
    } else {
        None
    }
}

pub fn normalize_manga_id<'a>(manga_id: &'a [u8]) -> (r: Option<&'a [u8]>)
    ensures
        match r {
            Some(v) => normalized_id_of(manga_id@) == Some(v@),
            None => normalized_id_of(manga_id@) is None,
        },
{
    proof {
        reveal_strlit("manga:");
        broadcast use vstd::string::is_ascii_spec_bytes;
        assert(vstd::string::is_ascii("manga:"));
    }
    if starts_with(manga_id, "manga:".as_bytes()) {
        let v = slice_subrange(manga_id, 6, manga_id.len());
        assert(v@ =~= manga_id@.skip(6));
        return Some(v);
    }
    if starts_with(manga_id, "comic/".as_bytes()) {
        return Some(manga_id);
    }
    let mut i: usize = 0;
    while i < manga_id.len()
        invariant
            0 <= i <= manga_id@.len(),
            !has_prefix(manga_id@, "manga:".spec_bytes()),
            !has_prefix(manga_id@, "comic/".spec_bytes()),
            forall|k: int| 0 <= k < i ==> crate::json_utils::is_digit(#[trigger] manga_id@[k]),
        decreases manga_id@.len() - i,
    {
        if manga_id[i] < 48 || manga_id[i] > 57 {
            assert(!crate::json_utils::is_digit(manga_id@[i as int]));
            return None;
        }
        i = i + 1;
    }
    Some(manga_id)
}

/// A URL as the payloads carry it, JSON-escaped: `//host` gets `https:`,
/// `/path` the base in front, a bare path the base and a slash.
pub open spec fn abs_url_text(url: Seq<u8>, base: Seq<u8>) -> Seq<u8> {
    if has_prefix(url, "//".spec_bytes()) {
        "https:".spec_bytes() + escaped(url)
    } else if has_prefix(url, "http://".spec_bytes()) || has_prefix(url, "https://".spec_bytes()) {
        escaped(url)
    } else if has_prefix(url, "/".spec_bytes()) {
        base + escaped(url)
    } else {
        base + "/".spec_bytes() + escaped(url)
    }
}

/// The units a URL is written in as the payloads carry it: what goes in
/// front of it, then its escaped bytes.
pub open spec fn abs_url_units(url: Seq<u8>, base: Seq<u8>) -> Seq<Seq<u8>> {
    (if has_prefix(url, "//".spec_bytes()) {
        seq!["https:".spec_bytes()]
    } else if has_prefix(url, "http://".spec_bytes()) || has_prefix(url, "https://".spec_bytes()) {
        Seq::empty()
    } else if has_prefix(url, "/".spec_bytes()) {
        seq![base]
    } else {
        seq![base, "/".spec_bytes()]
    }) + byte_units(url, crate::json_utils::escape_fn())
}

pub fn write_abs_url(dst: &mut [u8], c: &mut usize, url: &[u8], default_base: &[u8]) -> (ok: bool)
    requires
        *old(c) <= old(dst)@.len(),
    ensures
        appended(old(dst)@, *old(c) as int, abs_url_text(url@, default_base@), final(dst)@, *final(c) as int, ok),
        wrote_units(old(dst)@, *old(c) as int, abs_url_units(url@, default_base@), final(dst)@, *final(c) as int, ok),
        final(dst)@.len() == old(dst)@.len(),
        *final(c) <= final(dst)@.len(),
{
    if starts_with(url, "//".as_bytes()) {
        let ps = [Piece::Text("https:"), Piece::Escaped(url)];
        proof {
            reveal_with_fuel(pieces_bytes, 3);
            assert(pieces_bytes(ps@) =~= abs_url_text(url@, default_base@));
            reveal_with_fuel(pieces_units, 3);
            assert(pieces_units(ps@) =~= abs_url_units(url@, default_base@));
        }
        put_pieces(dst, c, &ps)
    } else if starts_with(url, "http://".as_bytes()) || starts_with(url, "https://".as_bytes()) {
        let ps = [Piece::Escaped(url)];
        proof {
            reveal_with_fuel(pieces_bytes, 2);
            assert(pieces_bytes(ps@) =~= abs_url_text(url@, default_base@));
            reveal_with_fuel(pieces_units, 2);
            assert(pieces_units(ps@) =~= abs_url_units(url@, default_base@));
        }
        put_pieces(dst, c, &ps)
    } else if starts_with(url, "/".as_bytes()) {
        let ps = [Piece::Raw(default_base), Piece::Escaped(url)];
        proof {
            reveal_with_fuel(pieces_bytes, 3);
            assert(pieces_bytes(ps@) =~= abs_url_text(url@, default_base@));
            reveal_with_fuel(pieces_units, 3);
            assert(pieces_units(ps@) =~= abs_url_units(url@, default_base@));
        }
        put_pieces(dst, c, &ps)
    } else {
        let ps = [Piece::Raw(default_base), Piece::Text("/"), Piece::Escaped(url)];
        proof {
            reveal_with_fuel(pieces_bytes, 4);
            assert(pieces_bytes(ps@) =~= abs_url_text(url@, default_base@));
            reveal_with_fuel(pieces_units, 4);
            assert(pieces_units(ps@) =~= abs_url_units(url@, default_base@));
        }
        put_pieces(dst, c, &ps)
    }
}

pub const CARD_TAIL: &'static str =
    "\"},\"authors\":[],\"status\":\"unknown\",\"contentRating\":\"nsfw\",\"description\":\"\",\"sourceTags\":[\"manhuagui\"]}";

/// A manga card: the title trimmed, the cover made absolute.
pub open spec fn card_json(id: Seq<u8>, title: Seq<u8>, cover: Seq<u8>) -> Seq<u8> {
    "{\"id\":\"".spec_bytes() + escaped(id) + "\",\"title\":\"".spec_bytes() + escaped(trimmed(title))
        + "\",\"cover\":{\"kind\":\"url\",\"url\":\"".spec_bytes() + abs_url_text(cover, BASE_URL.spec_bytes())
        + CARD_TAIL.spec_bytes()
}

/// The units a manga card is written in.
pub open spec fn card_units(id: Seq<u8>, title: Seq<u8>, cover: Seq<u8>) -> Seq<Seq<u8>> {
    seq!["{\"id\":\"".spec_bytes()] + byte_units(id, crate::json_utils::escape_fn()) + seq!["\",\"title\":\"".spec_bytes()]
        + byte_units(trimmed(title), crate::json_utils::escape_fn()) + seq![
        "\",\"cover\":{\"kind\":\"url\",\"url\":\"".spec_bytes(),
    ] + abs_url_units(cover, BASE_URL.spec_bytes()) + seq![CARD_TAIL.spec_bytes()]
}

pub fn write_card(payload: &mut [u8], c: &mut usize, id: &[u8], title: &[u8], cover: &[u8]) -> (ok: bool)
    requires
        *old(c) <= old(payload)@.len(),
    ensures
        appended(old(payload)@, *old(c) as int, card_json(id@, title@, cover@), final(payload)@, *final(c) as int, ok),
        wrote_units(old(payload)@, *old(c) as int, card_units(id@, title@, cover@), final(payload)@, *final(c) as int, ok),
        final(payload)@.len() == old(payload)@.len(),
        *final(c) <= final(payload)@.len(),
{
    let t = crate::sources::dm5::trim_ascii(title);
    let ghost d0 = payload@;
    let ghost c0 = *c as int;
    let ghost head = "{\"id\":\"".spec_bytes() + escaped(id@) + "\",\"title\":\"".spec_bytes() + escaped(trimmed(title@))
        + "\",\"cover\":{\"kind\":\"url\",\"url\":\"".spec_bytes();
    let ghost url = abs_url_text(cover@, BASE_URL.spec_bytes());
    let ghost tail = CARD_TAIL.spec_bytes();
    let ps = [
        Piece::Text("{\"id\":\""),
        Piece::Escaped(id),
        Piece::Text("\",\"title\":\""),
        Piece::Escaped(t),
        Piece::Text("\",\"cover\":{\"kind\":\"url\",\"url\":\""),
    ];
    let ghost hu = pieces_units(ps@);
    let ghost uu = abs_url_units(cover@, BASE_URL.spec_bytes());
    let ghost tu = seq![CARD_TAIL.spec_bytes()];
    proof {
        reveal_with_fuel(pieces_bytes, 6);
        assert(pieces_bytes(ps@) =~= head);
        assert(card_json(id@, title@, cover@) =~= head + url + tail);
        reveal_with_fuel(pieces_units, 6);
        assert(hu + uu + tu =~= card_units(id@, title@, cover@));
    }
    if !put_pieces(payload, c, &ps) {
        proof {
            crate::json_utils::lemma_appended_fail_extend(d0, c0, head, payload@, *c as int, url + tail);
            assert(head + (url + tail) =~= head + url + tail);
            lemma_wrote_fail_extend(d0, c0, hu, payload@, *c as int, uu + tu);
            assert(hu + (uu + tu) =~= hu + uu + tu);
        }
        return false;
    }
    let ghost d1 = payload@;
    let ghost c1 = *c as int;
    let ok = write_abs_url(payload, c, cover, BASE_URL.as_bytes());
    proof {
        crate::json_utils::lemma_appended_then(d0, c0, head, d1, c1, url, payload@, *c as int, ok);
        lemma_wrote_then(d0, c0, hu, d1, c1, uu, payload@, *c as int, ok);
    }
    if !ok {
        proof {
            crate::json_utils::lemma_appended_fail_extend(d0, c0, head + url, payload@, *c as int, tail);
            lemma_wrote_fail_extend(d0, c0, hu + uu, payload@, *c as int, tu);
        }
        return false;
    }
    let ghost d2 = payload@;
    let ghost c2 = *c as int;
    let ok2 = crate::json_utils::put_str(payload, c, CARD_TAIL);
    proof {
        crate::json_utils::lemma_appended_then(d0, c0, head + url, d2, c2, tail, payload@, *c as int, ok2);
        lemma_wrote_then(d0, c0, hu + uu, d2, c2, tu, payload@, *c as int, ok2);
    }
    ok2
}

/// The byte an escape letter stands for in JavaScript text.
pub open spec fn js_letter(n: u8) -> u8 {
    if n == 110 {
        10
    } else if n == 114 {
        13
    } else if n == 116 {
        9
    } else {
        n
    }
}

/// The text of `src` from `i` with JavaScript escapes undone, with `c`
/// bytes already out and room for `cap`: `\xHH` and `\uHHHH` give the
/// byte and the UTF-8 of the code (a backslash stays when the digits are
/// not hex, or the code does not fit); `\n`, `\r`, `\t` their control
/// bytes; any other escaped byte itself. Output stops when full.
pub open spec fn unescape_from(src: Seq<u8>, i: int, c: int, cap: int) -> Seq<u8>
    decreases src.len() - i,
{
    if i < 0 || i >= src.len() || c >= cap {
        Seq::empty()
    } else if src[i] == 92 && i + 1 < src.len() {
        let n = src[i + 1];
        if n == 120 && i + 3 < src.len() {
            match (hex_digit_value(src[i + 2]), hex_digit_value(src[i + 3])) {
                (Some(a), Some(b)) => seq![((a << 4u32) | b) as u8] + unescape_from(src, i + 4, c + 1, cap),
                _ => seq![src[i]] + unescape_from(src, i + 1, c + 1, cap),
            }
        } else if n == 117 && i + 5 < src.len() {
            let h = src.subrange(i + 2, i + 6);
            if all_hex(h) && c + utf8_bytes(hex_number(h) as u32).len() <= cap {
                utf8_bytes(hex_number(h) as u32) + unescape_from(
                    src,
                    i + 6,
                    c + utf8_bytes(hex_number(h) as u32).len(),
                    cap,
                )
            } else {
                seq![src[i]] + unescape_from(src, i + 1, c + 1, cap)
            }
        } else {
            seq![js_letter(n)] + unescape_from(src, i + 2, c + 1, cap)
        }
    } else {
        seq![src[i]] + unescape_from(src, i + 1, c + 1, cap)
    }
}

/// Undoes the JavaScript escapes of `src` into `out`, as much as fits,
/// and returns the text written.
pub fn unescape_js_to<'a>(src: &[u8], out: &'a mut [u8]) -> (r: &'a [u8])
    ensures
        final(out)@.len() == old(out)@.len(),
        r@ == unescape_from(src@, 0, 0, old(out)@.len() as int),
        r@ == final(out)@.take(r@.len() as int),
{
    let ghost cap = out@.len() as int;
    let ghost whole = unescape_from(src@, 0, 0, cap);
    let mut i: usize = 0;
    let mut c: usize = 0;
    assert(out@.take(0) + whole =~= whole);
    while i < src.len() && c < out.len()
        invariant
            0 <= i <= src@.len(),
            c <= cap,
            cap == out@.len(),
            cap == old(out)@.len(),
            whole == unescape_from(src@, 0, 0, cap),
            whole == out@.take(c as int) + unescape_from(src@, i as int, c as int, cap),
        decreases src@.len() - i,
    {
        let ghost w = out@.take(c as int);
        let b = src[i];
        if b == 92 && i + 1 < src.len() {
            let n = src[i + 1];
            if n == 120 && src.len() - i > 3 {
                match (hex_value(src[i + 2]), hex_value(src[i + 3])) {
                    (Some(a), Some(bv)) => {
                        out[c] = ((a << 4u32) | bv) as u8;
                        proof {
                            assert(out@.take(c + 1) =~= w.push(((a << 4u32) | bv) as u8));
                        }
                        c = c + 1;
                        i = i + 4;
                    },
                    _ => {
                        out[c] = b;
                        proof {
                            assert(out@.take(c + 1) =~= w.push(b));
                        }
                        c = c + 1;
                        i = i + 1;
                    },
                }
            } else if n == 117 && src.len() - i > 5 {
                let hex = slice_subrange(src, i + 2, i + 6);
                let code = crate::fetch::decode_hex4(hex);
                assert(hex@ == src@.subrange(i + 2, i + 6));
                let ghost before = out@;
                let mut done = false;
                if let Some(cp) = code {
                    let mut cc = c;
                    if write_utf8(out, &mut cc, cp) {
                        proof {
                            assert(out@.take(cc as int) =~= w + utf8_bytes(cp));
                        }
                        c = cc;
                        i = i + 6;
                        done = true;
                    }
                }
                if !done {
                    out[c] = b;
                    proof {
                        assert(out@.take(c + 1) =~= w.push(b));
                    }
                    c = c + 1;
                    i = i + 1;
                }
            } else {
                let v = if n == 110 {
                    10
                } else if n == 114 {
                    13
                } else if n == 116 {
                    9
                } else {
                    n
                };
                out[c] = v;
                proof {
                    assert(out@.take(c + 1) =~= w.push(js_letter(n)));
                }
                c = c + 1;
                i = i + 2;
            }
        } else {
            out[c] = b;
            proof {
                assert(out@.take(c + 1) =~= w.push(b));
            }
            c = c + 1;
            i = i + 1;
        }
    }
    proof {
        assert(unescape_from(src@, i as int, c as int, cap) =~= Seq::<u8>::empty());
        assert(out@.take(c as int) + Seq::<u8>::empty() =~= out@.take(c as int));
    }
    let o: &'a [u8] = out;
    slice_subrange(o, 0, c)
}

/// Where the JSON value scanned from `i` ends: after the bracket that
/// closes the first one (or at a stray closing bracket), at a `;` outside
/// brackets, or at the end; `depth` brackets are open, strings and escapes
/// respected.
pub open spec fn value_end_from(b: Seq<u8>, i: int, in_str: bool, esc: bool, depth: int) -> int
    decreases b.len() - i,
{
    if i < 0 || i >= b.len() {
        b.len() as int
    } else if in_str {
        if esc {
            value_end_from(b, i + 1, true, false, depth)
        } else if b[i] == 92 {
            value_end_from(b, i + 1, true, true, depth)
        } else if b[i] == 34 {
            value_end_from(b, i + 1, false, false, depth)
        } else {
            value_end_from(b, i + 1, true, false, depth)
        }
    } else if b[i] == 34 {
        value_end_from(b, i + 1, true, false, depth)
    } else if b[i] == 91 || b[i] == 123 {
        value_end_from(b, i + 1, false, false, depth + 1)
    } else if b[i] == 93 || b[i] == 125 {
        if depth - 1 <= 0 {
            i + 1
        } else {
            value_end_from(b, i + 1, false, false, depth - 1)
        }
    } else if b[i] == 59 && depth <= 0 {
        i
    } else {
        value_end_from(b, i + 1, false, false, depth)
    }
}

pub proof fn lemma_value_end_bounds(b: Seq<u8>, i: int, in_str: bool, esc: bool, depth: int)
    requires
        0 <= i,
    ensures
        i <= value_end_from(b, i, in_str, esc, depth) || i > b.len(),
        value_end_from(b, i, in_str, esc, depth) <= b.len(),
    decreases b.len() - i,
{
    if i < b.len() {
        if in_str {
            if esc {
                lemma_value_end_bounds(b, i + 1, true, false, depth);
            } else if b[i] == 92 {
                lemma_value_end_bounds(b, i + 1, true, true, depth);
            } else if b[i] == 34 {
                lemma_value_end_bounds(b, i + 1, false, false, depth);
            } else {
                lemma_value_end_bounds(b, i + 1, true, false, depth);
            }
        } else if b[i] == 34 {
            lemma_value_end_bounds(b, i + 1, true, false, depth);
        } else if b[i] == 91 || b[i] == 123 {
            lemma_value_end_bounds(b, i + 1, false, false, depth + 1);
        } else if b[i] == 93 || b[i] == 125 {
            if depth - 1 > 0 {
                lemma_value_end_bounds(b, i + 1, false, false, depth - 1);
            }
        } else if !(b[i] == 59 && depth <= 0) {
            lemma_value_end_bounds(b, i + 1, false, false, depth);
        }
    }
}

pub fn find_json_value_end(bytes: &[u8], start: usize) -> (r: usize)
    requires
        start <= bytes@.len(),
        bytes@.len() < i64::MAX,
    ensures
        r == value_end_from(bytes@, start as int, false, false, 0),
        start <= r <= bytes@.len(),
{
    proof {
        lemma_value_end_bounds(bytes@, start as int, false, false, 0);
    }
    let mut i = start;
    let mut in_str = false;
    let mut esc = false;
    let mut depth: i64 = 0;
    while i < bytes.len()
        invariant
            start <= i <= bytes@.len(),
            bytes@.len() < i64::MAX,
            -(i - start) <= depth <= i - start,
            !in_str ==> !esc,
            value_end_from(bytes@, start as int, false, false, 0) == value_end_from(
                bytes@,
                i as int,
                in_str,
                esc,
                depth as int,
            ),
        decreases bytes@.len() - i,
    {
        let b = bytes[i];
        assert(i < bytes.len());
        if in_str {
            if esc {
                esc = false;
            } else if b == 92 {
                esc = true;
            } else if b == 34 {
                in_str = false;
            }
        } else if b == 34 {
            in_str = true;
        } else if b == 91 || b == 123 {
            depth = depth + 1;
        } else if b == 93 || b == 125 {
            depth = depth - 1;
            if depth <= 0 {
                return i + 1;
            }
        } else if b == 59 && depth <= 0 {
            return i;
        }
        i = i + 1;
    }
    bytes.len()
}

/// The nearest `{` at or before `p` (stopping at 0).
pub open spec fn back_to_brace(b: Seq<u8>, p: int) -> int
    decreases p,
{
    if p > 0 && b[p] != 123 {
        back_to_brace(b, p - 1)
    } else {
        p
    }
}

pub proof fn lemma_back_to_brace(b: Seq<u8>, p: int)
    requires
        0 <= p,
    ensures
        0 <= back_to_brace(b, p) <= p,
    decreases p,
{
    if p > 0 && b[p] != 123 {
        lemma_back_to_brace(b, p - 1);
    }
}

/// The image JSON of a reader page: the object around the first
/// `"files"`, from the nearest `{` before it to the end of its value.
pub open spec fn img_json_of(html: Seq<u8>) -> Option<Seq<u8>> {
    match find(html, "\"files\"".spec_bytes()) {
        None => None,
        Some(f) => {
            let s = back_to_brace(html, f);
            if html[s] != 123 {
                None
            } else {
                Some(html.subrange(s, value_end_from(html, s, false, false, 0)))
            }
        },
    }
}

pub fn find_img_json(html: &[u8]) -> (r: Option<&[u8]>)
    requires
        html@.len() < i64::MAX,
    ensures
        match r {
            Some(v) => img_json_of(html@) == Some(v@),
            None => img_json_of(html@) is None,
        },
{
    let files = match find_subslice(html, "\"files\"".as_bytes()) {
        Some(f) => f,
        None => return None,
    };
    let mut start = files;
    while start > 0 && html[start] != 123
        invariant
            start <= files < html@.len(),
            back_to_brace(html@, files as int) == back_to_brace(html@, start as int),
        decreases start,
    {
        start = start - 1;
    }
    if html[start] != 123 {
        return None;
    }
    let end = find_json_value_end(html, start);
    Some(slice_subrange(html, start, end))
}

/// The array that follows the first `key` (from its `[` to the end of
/// its value).
pub open spec fn json_array_after(json: Seq<u8>, key: Seq<u8>) -> Option<Seq<u8>> {
    match find(json, key) {
        None => None,
        Some(p) => {
            let i = crate::json_utils::skip_while(json, p + key.len(), not_bracket_fn());
            if i >= json.len() {
                None
            } else {
                Some(json.subrange(i, value_end_from(json, i, false, false, 0)))
            }
        },
    }
}

pub open spec fn not_bracket_fn() -> spec_fn(u8) -> bool {
    |b: u8| b != 91
}

pub fn extract_json_array<'a>(json: &'a [u8], key: &[u8]) -> (r: Option<&'a [u8]>)
    requires
        json@.len() < i64::MAX,
    ensures
        match r {
            Some(v) => json_array_after(json@, key@) == Some(v@),
            None => json_array_after(json@, key@) is None,
        },
{
    let p = match find_subslice(json, key) {
        Some(v) => v,
        None => return None,
    };
    assert(p + key.len() <= json.len());
    let ghost nb = not_bracket_fn();
    let mut i: usize = p + key.len();
    let ghost i0 = i as int;
    while i < json.len() && json[i] != 91
        invariant
            i0 <= i <= json@.len(),
            nb == not_bracket_fn(),
            crate::json_utils::skip_while(json@, i0, nb) == crate::json_utils::skip_while(json@, i as int, nb),
        decreases json@.len() - i,
    {
        i = i + 1;
    }
    if i >= json.len() {
        return None;
    }
    let end = find_json_value_end(json, i);
    Some(slice_subrange(json, i, end))
}

/// A value of the `"sl"` part of the image JSON: the number `e`, or the
/// string under another key.
pub open spec fn sl_value_of(json: Seq<u8>, key: Seq<u8>) -> Option<Seq<u8>> {
    match find(json, "\"sl\"".spec_bytes()) {
        None => None,
        Some(s) => {
            let part = json.skip(s);
            if key == "e".spec_bytes() {
                json_number_value(part, key)
            } else {
                json_string_value(part, key)
            }
        },
    }
}

pub fn extract_sl_value<'a>(json: &'a [u8], key: &[u8]) -> (r: Option<&'a [u8]>)
    ensures
        match r {
            Some(v) => sl_value_of(json@, key@) == Some(v@),
            None => sl_value_of(json@, key@) is None,
        },
{
    let sl = match find_subslice(json, "\"sl\"".as_bytes()) {
        Some(v) => v,
        None => return None,
    };
    let part = slice_subrange(json, sl, json.len());
    assert(part@ =~= json@.skip(sl as int));
    if crate::json_utils::same_bytes(key, "e".as_bytes()) {
        extract_json_number(part, key)
    } else {
        extract_json_string(part, key)
    }
}

} // verus!
