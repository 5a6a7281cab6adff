//! The mh1234 source: link paths, cover and meta fields scanned from its
//! pages, page URLs, and the manga cards it lists.
use vstd::prelude::*;
use vstd::slice::slice_subrange;
use vstd::string::StringSliceAdditionalSpecFns;
use crate::json_utils::{appended, escaped, find, find_subslice, lemma_appended_fail_extend, lemma_appended_then, skip_while};
use crate::pieces::{item_unit, item_units, pieces_bytes, pieces_units, put_pieces, Piece};
use crate::units::{byte_units, lemma_wrote_fail_extend, lemma_wrote_then, wrote_units};
use crate::sources::bh3::{has_prefix, opt_view, or_else, starts_with};
use crate::sources::site::{url_lead, json_url_text, manga_item_json, path_of, stripped_of};
use crate::sources::text::{digits_fit, parse_decimal, trimmed};

verus! {

pub const BASE_URL: &'static str = "https://m.wmh1234.com";

pub const ITEM_TAIL: &'static str =
    "\"},\"authors\":[],\"status\":\"unknown\",\"contentRating\":\"safe\",\"description\":\"\",\"sourceTags\":[\"mh1234\"]}";

/// `bytes` without `prefix` (and trimmed) when it starts with it.
pub fn strip_prefix<'a>(bytes: &'a [u8], prefix: &[u8]) -> (r: &'a [u8])
    ensures
        r@ == stripped_of(bytes@, prefix@),
{
    crate::sources::site::strip_prefix(bytes, prefix)
}

/// A non-empty run of decimal digits read as a number.
pub fn parse_usize(bytes: &[u8]) -> (r: Option<usize>)
    requires
        digits_fit(bytes@, usize::MAX as nat),
    ensures
        match r {
            Some(n) => parse_decimal(bytes@) == Some(n as nat),
            None => parse_decimal(bytes@) is None,
        },
{
    crate::sources::text::parse_decimal_exec(bytes)
}

/// The path of a link.
pub fn path_from_href(href: &[u8]) -> (r: Option<&[u8]>)
    ensures
        match r {
            Some(v) => path_of(href@) == Some(v@),
            None => path_of(href@) is None,
        },
{
    crate::sources::site::path_from_href(href)
}

/// Writes a URL as the payloads carry it (`//host` gets `https:`).
pub fn write_json_url(dst: &mut [u8], c: &mut usize, url: &[u8]) -> (ok: bool)
    requires
        *old(c) <= old(dst)@.len(),
    ensures
        appended(old(dst)@, *old(c) as int, json_url_text(url@, "https:".spec_bytes(), BASE_URL.spec_bytes()), final(dst)@, *final(c) as int, ok),
        wrote_units(
            old(dst)@,
            *old(c) as int,
            seq![url_lead(url@, "https:".spec_bytes(), BASE_URL.spec_bytes())] + byte_units(url@, crate::json_utils::escape_fn()),
            final(dst)@,
            *final(c) as int,
            ok,
        ),
        final(dst)@.len() == old(dst)@.len(),
        *final(c) <= final(dst)@.len(),
{
    crate::sources::site::write_json_url(dst, c, url, "https:", BASE_URL)
}

/// Writes a manga card, after a comma unless it is the first.
pub fn write_manga_item(payload: &mut [u8], c: &mut usize, id: &[u8], title: &[u8], cover: &[u8], written: usize) -> (ok: bool)
    requires
        *old(c) <= old(payload)@.len(),
    ensures
        appended(
            old(payload)@,
            *old(c) as int,
            item_unit(written > 0, manga_item_json(id@, title@, cover@, "https:".spec_bytes(), BASE_URL.spec_bytes(), ITEM_TAIL.spec_bytes())),
            final(payload)@,
            *final(c) as int,
            ok,
        ),
        wrote_units(
            old(payload)@,
            *old(c) as int,
            item_units(
                written > 0,
                crate::sources::site::manga_item_units(id@, title@, cover@, "https:".spec_bytes(), BASE_URL.spec_bytes(), ITEM_TAIL.spec_bytes()),
            ),
            final(payload)@,
            *final(c) as int,
            ok,
        ),
        final(payload)@.len() == old(payload)@.len(),
        *final(c) <= final(payload)@.len(),
{
    crate::sources::site::write_manga_item(payload, c, id, title, cover, written, "https:", BASE_URL, ITEM_TAIL)
}

pub open spec fn not_quote_fn() -> spec_fn(u8) -> bool {
    |b: u8| b != 34
}

/// The text after `attr` in the first `<img` after `marker`, up to the
/// next double quote (`attr` is given with its `="`).
pub open spec fn attr_after_of(html: Seq<u8>, marker: Seq<u8>, attr: Seq<u8>) -> Option<Seq<u8>> {
    match find(html, marker) {
        None => None,
        Some(m) => {
            let p1 = m + marker.len();
            match find(html.skip(p1), "<img".spec_bytes()) {
                None => None,
                Some(q) => {
                    let pos = p1 + q;
                    match find(html.skip(pos), attr) {
                        None => None,
                        Some(a) => {
                            let start = pos + a + attr.len();
                            let end = skip_while(html, start, not_quote_fn());
                            if end > start {
                                Some(html.subrange(start, end))
                            } else {
                                None
                            }
                        },
                    }
                },
            }
        },
    }
}

pub fn extract_attr_after<'a>(html: &'a [u8], marker: &[u8], attr: &[u8]) -> (r: Option<&'a [u8]>)
    ensures
        match r {
            Some(v) => attr_after_of(html@, marker@, attr@) == Some(v@),
            None => attr_after_of(html@, marker@, attr@) is None,
        },
{
    let m = match find_subslice(html, marker) {
        Some(v) => v,
        None => return None,
    };
    assert(m + marker.len() <= html.len());
    let p1 = m + marker.len();
    let rest = slice_subrange(html, p1, html.len());
    assert(rest@ =~= html@.skip(p1 as int));
    let q = match find_subslice(rest, "<img".as_bytes()) {
        Some(v) => v,
        None => return None,
    };
    let pos = p1 + q;
    let rest2 = slice_subrange(html, pos, html.len());
    assert(rest2@ =~= html@.skip(pos as int));
    let a = match find_subslice(rest2, attr) {
        Some(v) => v,
        None => return None,
    };
    assert(a + attr.len() <= rest2.len());
    let start = pos + a + attr.len();
    let ghost nq = not_quote_fn();
    let mut end = start;
    while end < html.len() && html[end] != 34
        invariant
            start <= end <= html@.len(),
            nq == not_quote_fn(),
            skip_while(html@, start as int, nq) == skip_while(html@, end as int, nq),
        decreases html@.len() - end,
    {
        end = end + 1;
    }
    if end > start {
        Some(slice_subrange(html, start, end))
    } else {
        None
    }
}

pub const META_MARKER: &'static str = "class=\"meta-item\"";

/// The trimmed text of the `k`-th meta item from `pos`: what follows its
/// icon (`</svg>`) up to its `</span>`.
pub open spec fn meta_from(html: Seq<u8>, pos: int, k: nat) -> Option<Seq<u8>>
    decreases k,
{
    match find(html.skip(pos), META_MARKER.spec_bytes()) {
        None => None,
        Some(s) => {
            let at = pos + s;
            if k == 0 {
                match find(html.skip(at), "</svg>".spec_bytes()) {
                    None => None,
                    Some(v) => {
                        let start = at + v + 6;
                        match find(html.skip(start), "</span>".spec_bytes()) {
                            None => None,
                            Some(e) => Some(trimmed(html.subrange(start, start + e))),
                        }
                    },
                }
            } else {
                meta_from(html, at + META_MARKER.spec_bytes().len(), (k - 1) as nat)
            }
        },
    }
}

/// The text of meta item `index` of a manga page's header.
pub open spec fn meta_text_of(html: Seq<u8>, index: nat) -> Option<Seq<u8>> {
    match find(html, "comic-hero__meta".spec_bytes()) {
        None => None,
        Some(p) => meta_from(html, p, index),
    }
}

pub fn extract_meta_text(html: &[u8], index: usize) -> (r: Option<&[u8]>)
    ensures
        match r {
            Some(v) => meta_text_of(html@, index as nat) == Some(v@),
            None => meta_text_of(html@, index as nat) is None,
        },
{
    proof {
        reveal_strlit("</svg>");
        reveal_strlit("class=\"meta-item\"");
        broadcast use vstd::string::is_ascii_spec_bytes;
        assert(vstd::string::is_ascii("</svg>"));
        assert(vstd::string::is_ascii(META_MARKER));
    }
    let mut pos = match find_subslice(html, "comic-hero__meta".as_bytes()) {
        Some(v) => v,
        None => return None,
    };
    let mut seen: usize = 0;
    let svg = "</svg>".as_bytes();
    let marker = META_MARKER.as_bytes();
    loop
        invariant
            seen <= index,
            pos <= html@.len(),
            svg@ == "</svg>".spec_bytes(),
            svg@.len() == 6,
            marker@ == META_MARKER.spec_bytes(),
            meta_text_of(html@, index as nat) == meta_from(html@, pos as int, (index - seen) as nat),
        decreases index - seen,
    {
        let rest = slice_subrange(html, pos, html.len());
        assert(rest@ =~= html@.skip(pos as int));
        let span = match find_subslice(rest, marker) {
            Some(v) => v,
            None => return None,
        };
        pos = pos + span;
        if seen == index {
            let rest2 = slice_subrange(html, pos, html.len());
            assert(rest2@ =~= html@.skip(pos as int));
            let v = match find_subslice(rest2, svg) {
                Some(v) => v,
                None => return None,
            };
            let start = pos + v + 6;
            let rest3 = slice_subrange(html, start, html.len());
            assert(rest3@ =~= html@.skip(start as int));
            let e = match find_subslice(rest3, "</span>".as_bytes()) {
                Some(x) => x,
                None => return None,
            };
            return Some(crate::sources::dm5::trim_ascii(slice_subrange(html, start, start + e)));
        }
        assert(span + marker.len() <= rest.len());
        seen = seen + 1;
        pos = pos + marker.len();
    }
}

/// The URL of a site path (or an absolute URL, JSON-escaped).
pub open spec fn url_with_path(path: Seq<u8>) -> Seq<u8> {
    if has_prefix(path, "http://".spec_bytes()) || has_prefix(path, "https://".spec_bytes()) {
        escaped(path)
    } else {
        BASE_URL.spec_bytes() + path
    }
}

/// Writes the URL of a site path into `out`; its length, or `None` when it
/// does not fit.
pub fn build_url_with_path(path: &[u8], out: &mut [u8]) -> (r: Option<usize>)
    ensures
        final(out)@.len() == old(out)@.len(),
        match r {
            Some(n) => n == url_with_path(path@).len() && final(out)@.take(n as int) == url_with_path(path@),
            None => url_with_path(path@).len() > old(out)@.len(),
        },
{
    let ps = if starts_with(path, "http://".as_bytes()) || starts_with(path, "https://".as_bytes()) {
        [Piece::Escaped(path), Piece::Text("")]
    } else {
        [Piece::Text(BASE_URL), Piece::Raw(path)]
    };
    proof {
        reveal_strlit("");
        reveal_with_fuel(pieces_bytes, 3);
        assert(pieces_bytes(ps@) =~= url_with_path(path@));
    }
    let mut c: usize = 0;
    if !put_pieces(out, &mut c, &ps) {
        return None;
    }
    Some(c)
}


/// A meta field's value: the text the field shows, trimmed and without its
/// `label`; where that leaves nothing, the field scanned from the page's
/// text (the `index`-th), or nothing.
pub open spec fn meta_value(text: Seq<u8>, label: Seq<u8>, html: Seq<u8>, index: nat) -> Seq<u8> {
    let v = stripped_of(trimmed(text), label);
    if v.len() > 0 {
        v
    } else {
        or_else(meta_text_of(html, index), Seq::empty())
    }
}

fn meta_field<'a>(text: &'a [u8], label: &str, html: &'a [u8], index: usize) -> (r: &'a [u8])
    ensures
        r@ == meta_value(text@, label.spec_bytes(), html@, index as nat),
{
    let v = strip_prefix(crate::sources::dm5::trim_ascii(text), label.as_bytes());
    if v.len() > 0 {
        return v;
    }
    match extract_meta_text(html, index) {
        Some(m) => m,
        None => {
            proof {
                reveal_strlit("");
            }
            "".as_bytes()
        },
    }
}

pub const COVER_MARKER: &'static str = "class=\"comic-hero__cover\"";

/// The cover URL: the one selected when it is not empty, else the first
/// image's `data-src` (then `src`) after the cover's class in the page.
pub open spec fn cover_of(html: Seq<u8>, selected: Option<Seq<u8>>) -> Seq<u8> {
    match selected {
        Some(c) if c.len() > 0 => c,
        _ => match attr_after_of(html, COVER_MARKER.spec_bytes(), "data-src=\"".spec_bytes()) {
            Some(v) => v,
            None => or_else(attr_after_of(html, COVER_MARKER.spec_bytes(), "src=\"".spec_bytes()), Seq::empty()),
        },
    }
}

fn cover_choice<'a>(html: &'a [u8], selected: Option<&'a [u8]>) -> (r: &'a [u8])
    ensures
        r@ == cover_of(html@, opt_view(selected)),
{
    match selected {
        Some(c) => {
            if c.len() > 0 {
                return c;
            }
        },
        None => {},
    }
    match extract_attr_after(html, COVER_MARKER.as_bytes(), "data-src=\"".as_bytes()) {
        Some(v) => v,
        None => match extract_attr_after(html, COVER_MARKER.as_bytes(), "src=\"".as_bytes()) {
            Some(v) => v,
            None => {
                proof {
                    reveal_strlit("");
                }
                "".as_bytes()
            },
        },
    }
}

/// Whether a stat item's text is the status one.
pub fn names_status(item_text: &[u8]) -> (r: bool)
    ensures
        r == find(item_text@, "状态".spec_bytes()) is Some,
{
    find_subslice(item_text, "状态".as_bytes()).is_some()
}

/// The status a trimmed status text gives.
pub open spec fn status_word(text: Seq<u8>) -> Seq<u8> {
    if find(trimmed(text), "完结".spec_bytes()) is Some {
        "completed".spec_bytes()
    } else if find(trimmed(text), "连载".spec_bytes()) is Some {
        "ongoing".spec_bytes()
    } else {
        "unknown".spec_bytes()
    }
}

fn status_text(text: &[u8]) -> (r: &'static str)
    ensures
        r.spec_bytes() == status_word(text@),
{
    let t = crate::sources::dm5::trim_ascii(text);
    if find_subslice(t, "完结".as_bytes()).is_some() {
        "completed"
    } else if find_subslice(t, "连载".as_bytes()).is_some() {
        "ongoing"
    } else {
        "unknown"
    }
}

/// `"v"` for a non-empty `v`, else nothing.
pub open spec fn quoted_or_empty(v: Seq<u8>) -> Seq<u8> {
    if v.len() > 0 {
        "\"".spec_bytes() + escaped(v) + "\"".spec_bytes()
    } else {
        Seq::empty()
    }
}

fn quote_for(v: &[u8]) -> (q: &'static str)
    ensures
        q.spec_bytes() + escaped(v@) + q.spec_bytes() == quoted_or_empty(v@),
{
    proof {
        reveal_strlit("");
        reveal_strlit("\"");
    }
    if v.len() > 0 {
        "\""
    } else {
        assert(escaped(v@) =~= Seq::<u8>::empty()) by {
            reveal_with_fuel(crate::json_utils::per_byte, 1);
        }
        assert(Seq::<u8>::empty() + Seq::<u8>::empty() + Seq::<u8>::empty() =~= Seq::<u8>::empty());
        ""
    }
}

pub const DETAIL_MID: &'static str = "\"],\"artists\":[],\"status\":\"";

/// The manga payload of manga `id` (its page at `url`), from what the
/// page shows: the selected title and cover, the two meta fields' texts,
/// the status text and the description's text.
pub open spec fn detail_json(
    html: Seq<u8>,
    id: Seq<u8>,
    url: Seq<u8>,
    title: Option<Seq<u8>>,
    cover: Option<Seq<u8>>,
    author: Seq<u8>,
    genre: Seq<u8>,
    status: Seq<u8>,
    desc: Seq<u8>,
) -> Seq<u8> {
    detail_open(id, title, desc) + json_url_text(cover_of(html, cover), "https:".spec_bytes(), BASE_URL.spec_bytes())
        + detail_close(html, url, author, genre, status)
}

/// The manga payload up to its cover URL.
pub open spec fn detail_open(id: Seq<u8>, title: Option<Seq<u8>>, desc: Seq<u8>) -> Seq<u8> {
    "{\"manga\":{\"id\":\"".spec_bytes() + escaped(id) + "\",\"title\":\"".spec_bytes() + escaped(
        or_else(title, id),
    ) + "\",\"alternateTitles\":[],\"description\":\"".spec_bytes() + escaped(
        stripped_of(desc, "介绍:".spec_bytes()),
    ) + "\",\"cover\":{\"kind\":\"url\",\"url\":\"".spec_bytes()
}

/// The manga payload after its cover URL.
pub open spec fn detail_close(html: Seq<u8>, url: Seq<u8>, author: Seq<u8>, genre: Seq<u8>, status: Seq<u8>) -> Seq<u8> {
    "\"},\"authors\":[".spec_bytes() + quoted_or_empty(meta_value(author, "作者:".spec_bytes(), html, 0))
        + "],\"artists\":[],\"status\":\"".spec_bytes() + status_word(status)
        + "\",\"contentRating\":\"safe\",\"language\":\"zh\",\"tags\":[".spec_bytes() + quoted_or_empty(
        meta_value(genre, "类型:".spec_bytes(), html, 1),
    ) + "],\"links\":[{\"kind\":\"source\",\"url\":\"".spec_bytes() + escaped(url) + "\"}]}}".spec_bytes()
}

/// Writes `a`, then `url` as the payloads carry it, then `z`, as one run
/// that stops at the first part that does not fit.
fn put_around_url(payload: &mut [u8], c: &mut usize, a: &[Piece], url: &[u8], z: &[Piece]) -> (ok: bool)
    requires
        *old(c) <= old(payload)@.len(),
    ensures
        appended(
            old(payload)@,
            *old(c) as int,
            pieces_bytes(a@) + json_url_text(url@, "https:".spec_bytes(), BASE_URL.spec_bytes()) + pieces_bytes(z@),
            final(payload)@,
            *final(c) as int,
            ok,
        ),
        final(payload)@.len() == old(payload)@.len(),
        *final(c) <= final(payload)@.len(),
{
    let ghost d0 = payload@;
    let ghost c0 = *c as int;
    let ghost ua = pieces_bytes(a@);
    let ghost ub = json_url_text(url@, "https:".spec_bytes(), BASE_URL.spec_bytes());
    let ghost uz = pieces_bytes(z@);
    if !put_pieces(payload, c, a) {
        proof {
            lemma_appended_fail_extend(d0, c0, ua, payload@, *c as int, ub + uz);
            assert(ua + (ub + uz) =~= ua + ub + uz);
        }
        return false;
    }
    let ghost dm = payload@;
    let ghost cm = *c as int;
    let ok = write_json_url(payload, c, url);
    proof {
        lemma_appended_then(d0, c0, ua, dm, cm, ub, payload@, *c as int, ok);
    }
    if !ok {
        proof {
            lemma_appended_fail_extend(d0, c0, ua + ub, payload@, *c as int, uz);
        }
        return false;
    }
    let ghost dm = payload@;
    let ghost cm = *c as int;
    let ok = put_pieces(payload, c, z);
    proof {
        lemma_appended_then(d0, c0, ua + ub, dm, cm, uz, payload@, *c as int, ok);
    }
    ok
}

/// Writes the manga payload of manga `id` (its page `html` at `url`) from
/// what the page shows; its length, or `None` when it does not fit.
#[verifier::spinoff_prover]
#[verifier::rlimit(40)]
pub fn detail_payload(
    html: &[u8],
    id: &[u8],
    url: &[u8],
    title: Option<&[u8]>,
    cover: Option<&[u8]>,
    author: &[u8],
    genre: &[u8],
    status: &[u8],
    desc: &[u8],
    payload: &mut [u8],
) -> (r: Option<usize>)
    ensures
        final(payload)@.len() == old(payload)@.len(),
        match r {
            Some(n) => n == detail_json(html@, id@, url@, opt_view(title), opt_view(cover), author@, genre@, status@, desc@).len()
                && final(payload)@.take(n as int) == detail_json(html@, id@, url@, opt_view(title), opt_view(cover), author@, genre@, status@, desc@),
            None => detail_json(html@, id@, url@, opt_view(title), opt_view(cover), author@, genre@, status@, desc@).len()
                > old(payload)@.len(),
        },
{
    let t = match title {
        Some(v) => v,
        None => id,
    };
    let d = strip_prefix(desc, "介绍:".as_bytes());
    let cv = cover_choice(html, cover);
    let au = meta_field(author, "作者:", html, 0);
    let ge = meta_field(genre, "类型:", html, 1);
    let qa = quote_for(au);
    let qg = quote_for(ge);
    let word = status_text(status);
    let a = [
        Piece::Text("{\"manga\":{\"id\":\""),
        Piece::Escaped(id),
        Piece::Text("\",\"title\":\""),
        Piece::Escaped(t),
        Piece::Text("\",\"alternateTitles\":[],\"description\":\""),
        Piece::Escaped(d),
        Piece::Text("\",\"cover\":{\"kind\":\"url\",\"url\":\""),
    ];
    let z = [
        Piece::Text("\"},\"authors\":["),
        Piece::Text(qa),
        Piece::Escaped(au),
        Piece::Text(qa),
        Piece::Text("],\"artists\":[],\"status\":\""),
        Piece::Text(word),
        Piece::Text("\",\"contentRating\":\"safe\",\"language\":\"zh\",\"tags\":["),
        Piece::Text(qg),
        Piece::Escaped(ge),
        Piece::Text(qg),
        Piece::Text("],\"links\":[{\"kind\":\"source\",\"url\":\""),
        Piece::Escaped(url),
        Piece::Text("\"}]}}"),
    ];
    proof {
        assert(pieces_bytes(a@) =~= detail_open(id@, opt_view(title), desc@)) by {
            reveal_with_fuel(pieces_bytes, 8);
        }
        assert(pieces_bytes(z@) =~= detail_close(html@, url@, author@, genre@, status@)) by {
            reveal_with_fuel(pieces_bytes, 14);
        }
    }
    let mut c: usize = 0;
    if !put_around_url(payload, &mut c, &a, cv, &z) {
        return None;
    }
    Some(c)
}


/// The URL of search page `page` for `query`.
pub open spec fn search_url_of(query: Seq<u8>, page: nat) -> Seq<u8> {
    BASE_URL.spec_bytes() + "/search/".spec_bytes() + crate::json_utils::url_encoded(query) + page_part(page)
}

/// The URL of page `page` of the list by hits.
pub open spec fn list_url_of(page: nat) -> Seq<u8> {
    BASE_URL.spec_bytes() + "/category/order/hits".spec_bytes() + page_part(page)
}

/// The part of a list URL that names a page past the first.
pub open spec fn page_part(page: nat) -> Seq<u8> {
    if page > 1 {
        "/page/".spec_bytes() + crate::json_utils::decimal(page)
    } else {
        Seq::empty()
    }
}

/// Writes the URL of list page `page` (a search for `query`, or the list
/// by hits) into `out`; its length, or `None` when it does not fit.
pub fn list_url(query: Option<&[u8]>, page: usize, out: &mut [u8]) -> (r: Option<usize>)
    ensures
        final(out)@.len() == old(out)@.len(),
        match r {
            Some(n) => n == (match opt_view(query) {
                Some(q) => search_url_of(q, page as nat),
                None => list_url_of(page as nat),
            }).len() && final(out)@.take(n as int) == (match opt_view(query) {
                Some(q) => search_url_of(q, page as nat),
                None => list_url_of(page as nat),
            }),
            None => (match opt_view(query) {
                Some(q) => search_url_of(q, page as nat),
                None => list_url_of(page as nat),
            }).len() > old(out)@.len(),
        },
{
    proof {
        reveal_strlit("");
    }
    let a = match query {
        Some(q) => [Piece::Text(BASE_URL), Piece::Text("/search/"), Piece::UrlEncoded(q)],
        None => [Piece::Text(BASE_URL), Piece::Text("/category/order/hits"), Piece::Text("")],
    };
    let z = if page > 1 {
        [Piece::Text("/page/"), Piece::Number(page)]
    } else {
        [Piece::Text(""), Piece::Text("")]
    };
    proof {
        reveal_with_fuel(pieces_bytes, 4);
        assert(pieces_bytes(z@) =~= page_part(page as nat));
        assert(pieces_bytes(a@) + pieces_bytes(z@) =~= match opt_view(query) {
            Some(q) => search_url_of(q, page as nat),
            None => list_url_of(page as nat),
        });
    }
    let mut c: usize = 0;
    if !crate::pieces::put_pieces_then(out, &mut c, &a, &z) {
        return None;
    }
    Some(c)
}

/// The path of a chapter link, when it is a comic's chapter (under
/// `/comic/`).
pub open spec fn chapter_path_of(href: Seq<u8>) -> Option<Seq<u8>> {
    match path_of(href) {
        Some(p) => if has_prefix(p, "/comic/".spec_bytes()) {
            Some(p)
        } else {
            None
        },
        None => None,
    }
}

pub fn chapter_path(href: &[u8]) -> (r: Option<&[u8]>)
    ensures
        match r {
            Some(v) => chapter_path_of(href@) == Some(v@),
            None => chapter_path_of(href@) is None,
        },
{
    match path_from_href(href) {
        Some(p) => if starts_with(p, "/comic/".as_bytes()) {
            Some(p)
        } else {
            None
        },
        None => None,
    }
}

/// Page `k`: the image at `img`, as the payloads carry URLs.
pub open spec fn page_json(k: nat, img: Seq<u8>) -> Seq<u8> {
    "{\"id\":\"page:".spec_bytes() + crate::json_utils::decimal(k) + "\",\"index\":".spec_bytes()
        + crate::json_utils::decimal(k) + ",\"image\":{\"kind\":\"url\",\"url\":\"".spec_bytes() + json_url_text(
        img,
        "https:".spec_bytes(),
        BASE_URL.spec_bytes(),
    ) + "\"}}".spec_bytes()
}

/// The units page `k` is written in.
pub open spec fn page_units(k: nat, img: Seq<u8>) -> Seq<Seq<u8>> {
    seq![
        "{\"id\":\"page:".spec_bytes(),
        crate::json_utils::decimal(k),
        "\",\"index\":".spec_bytes(),
        crate::json_utils::decimal(k),
        ",\"image\":{\"kind\":\"url\",\"url\":\"".spec_bytes(),
        url_lead(img, "https:".spec_bytes(), BASE_URL.spec_bytes()),
    ] + byte_units(img, crate::json_utils::escape_fn()) + seq!["\"}}".spec_bytes()]
}

/// Writes page `k` for the image at `img`, after a comma unless `k` is 0;
/// `None` (and nothing written) when `img` is empty, as such an image is
/// passed over.
pub fn write_page(payload: &mut [u8], c: &mut usize, k: usize, img: &[u8]) -> (r: Option<bool>)
    requires
        *old(c) <= old(payload)@.len(),
    ensures
        final(payload)@.len() == old(payload)@.len(),
        *final(c) <= final(payload)@.len(),
        match r {
            None => img@.len() == 0 && final(payload)@ == old(payload)@ && *final(c) == *old(c),
            Some(ok) => img@.len() > 0 && appended(old(payload)@, *old(c) as int, item_unit(k > 0, page_json(k as nat, img@)), final(payload)@, *final(c) as int, ok)
                && wrote_units(old(payload)@, *old(c) as int, item_units(k > 0, page_units(k as nat, img@)), final(payload)@, *final(c) as int, ok),
        },
{
    if img.len() == 0 {
        return None;
    }
    let a = [
        Piece::Text("{\"id\":\"page:"),
        Piece::Number(k),
        Piece::Text("\",\"index\":"),
        Piece::Number(k),
        Piece::Text(",\"image\":{\"kind\":\"url\",\"url\":\""),
    ];
    let z = [Piece::Text("\"}}")];
    let ghost d0 = payload@;
    let ghost c0 = *c as int;
    let ghost sep: Seq<u8> = if k > 0 { ",".spec_bytes() } else { Seq::empty() };
    let ghost body = page_json(k as nat, img@);
    proof {
        reveal_strlit(",");
        reveal_strlit("");
    }
    let s: &str = ",";
    let lead: &[Piece] = if k > 0 { &[Piece::Text(s)] } else { &[] };
    proof {
        reveal_with_fuel(pieces_bytes, 6);
        assert(pieces_bytes(lead@) + pieces_bytes(a@) =~= sep + "{\"id\":\"page:".spec_bytes() + crate::json_utils::decimal(k as nat)
            + "\",\"index\":".spec_bytes() + crate::json_utils::decimal(k as nat) + ",\"image\":{\"kind\":\"url\",\"url\":\"".spec_bytes());
        assert(item_unit(k > 0, body) =~= pieces_bytes(lead@) + pieces_bytes(a@) + json_url_text(img@, "https:".spec_bytes(), BASE_URL.spec_bytes()) + pieces_bytes(z@));
    }
    let ghost va = pieces_units(lead@) + pieces_units(a@);
    proof {
        if k > 0 {
            assert(lead@ =~= seq![Piece::Text(s)]);
        } else {
            assert(lead@ =~= Seq::<Piece>::empty());
        }
    }
    let ghost vb = seq![url_lead(img@, "https:".spec_bytes(), BASE_URL.spec_bytes())] + byte_units(img@, crate::json_utils::escape_fn());
    let ghost vz = pieces_units(z@);
    proof {
        reveal_with_fuel(pieces_units, 6);
        assert(va + vb + vz =~= item_units(k > 0, page_units(k as nat, img@)));
    }
    let ghost ua = pieces_bytes(lead@) + pieces_bytes(a@);
    let ghost ub = json_url_text(img@, "https:".spec_bytes(), BASE_URL.spec_bytes());
    let ghost uz = pieces_bytes(z@);
    if !crate::pieces::put_pieces_then(payload, c, lead, &a) {
        proof {
            lemma_appended_fail_extend(d0, c0, ua, payload@, *c as int, ub + uz);
            assert(ua + (ub + uz) =~= ua + ub + uz);
            lemma_wrote_fail_extend(d0, c0, va, payload@, *c as int, vb + vz);
            assert(va + (vb + vz) =~= va + vb + vz);
        }
        return Some(false);
    }
    let ghost dm = payload@;
    let ghost cm = *c as int;
    let ok = write_json_url(payload, c, img);
    proof {
        lemma_appended_then(d0, c0, ua, dm, cm, ub, payload@, *c as int, ok);
        lemma_wrote_then(d0, c0, va, dm, cm, vb, payload@, *c as int, ok);
    }
    if !ok {
        proof {
            lemma_appended_fail_extend(d0, c0, ua + ub, payload@, *c as int, uz);
            lemma_wrote_fail_extend(d0, c0, va + vb, payload@, *c as int, vz);
        }
        return Some(false);
    }
    let ghost dm2 = payload@;
    let ghost cm2 = *c as int;
    let ok = put_pieces(payload, c, &z);
    proof {
        lemma_appended_then(d0, c0, ua + ub, dm2, cm2, uz, payload@, *c as int, ok);
        lemma_wrote_then(d0, c0, va + vb, dm2, cm2, vz, payload@, *c as int, ok);
    }
    Some(ok)
}

/// The image a request names: its `url`, else its `imageUrl`; `None` when
/// neither is given or it is empty.
pub open spec fn image_url_of(req: Seq<u8>) -> Option<Seq<u8>> {
    let u = match crate::json_utils::json_string_value(req, "url".spec_bytes()) {
        Some(v) => v,
        None => or_else(crate::json_utils::json_string_value(req, "imageUrl".spec_bytes()), Seq::empty()),
    };
    if u.len() > 0 {
        Some(u)
    } else {
        None
    }
}

pub fn image_url(req: &[u8]) -> (r: Option<&[u8]>)
    ensures
        match r {
            Some(v) => image_url_of(req@) == Some(v@),
            None => image_url_of(req@) is None,
        },
{
    let u = match crate::json_utils::extract_json_string(req, "url".as_bytes()) {
        Some(v) => v,
        None => match crate::json_utils::extract_json_string(req, "imageUrl".as_bytes()) {
            Some(v) => v,
            None => {
                proof {
                    reveal_strlit("");
                }
                "".as_bytes()
            },
        },
    };
    if u.len() > 0 {
        Some(u)
    } else {
        None
    }
}

pub const IMAGE_HEADERS: &'static str = "\",\"headers\":{\"Referer\":\"https://m.wmh1234.com/\"}}";

/// The image request for the (still escaped) URL `url`: its escapes read
/// and written anew, with the site as referer.
pub open spec fn image_request_json(url: Seq<u8>) -> Seq<u8> {
    "{\"url\":\"".spec_bytes() + crate::json_utils::reescaped(url) + IMAGE_HEADERS.spec_bytes()
}

/// Writes the image request for `url`; its length, or `None` when it does
/// not fit.
pub fn image_request_payload(url: &[u8], payload: &mut [u8]) -> (r: Option<usize>)
    ensures
        final(payload)@.len() == old(payload)@.len(),
        match r {
            Some(n) => n == image_request_json(url@).len() && final(payload)@.take(n as int) == image_request_json(url@),
            None => image_request_json(url@).len() > old(payload)@.len(),
        },
{
    let ps = [Piece::Text("{\"url\":\""), Piece::Reescaped(url), Piece::Text(IMAGE_HEADERS)];
    proof {
        reveal_with_fuel(pieces_bytes, 4);
        assert(pieces_bytes(ps@) =~= image_request_json(url@));
    }
    let mut c: usize = 0;
    if !put_pieces(payload, &mut c, &ps) {
        return None;
    }
    Some(c)
}

} // verus!
