//! The 92mh (jiuermanhua) source: link paths, image URLs built from the
//! reader's configuration, and the manga cards it lists.
use vstd::prelude::*;
use vstd::slice::slice_subrange;
use vstd::string::StringSliceAdditionalSpecFns;
use crate::json_utils::{appended, escaped, find, find_subslice, reescaped, skip_while};
use crate::pieces::{item_unit, pieces_bytes, put_pieces, Piece};
use crate::sources::bh3::{has_prefix, starts_with};
use crate::sources::site::{json_url_text, manga_item_json, path_of, stripped_of};
use crate::sources::text::{digits_fit, parse_decimal, trimmed};

verus! {

pub const BASE_URL: &'static str = "http://www.92mh.com";

pub const ITEM_TAIL: &'static str =
    "\"},\"authors\":[],\"status\":\"unknown\",\"contentRating\":\"safe\",\"description\":\"\",\"sourceTags\":[\"jiuermanhua\"]}";

/// Strips leading and trailing spaces, tabs, CR and LF.
pub fn trim_ascii(bytes: &[u8]) -> (r: &[u8])
    ensures
        r@ == trimmed(bytes@),
{
    crate::sources::dm5::trim_ascii(bytes)
}

/// `bytes` without `prefix` (and trimmed) when it starts with it.
pub fn strip_prefix_ascii<'a>(bytes: &'a [u8], prefix: &[u8]) -> (r: &'a [u8])
    ensures
        r@ == stripped_of(bytes@, prefix@),
{
    crate::sources::site::strip_prefix(bytes, prefix)
}

/// A non-empty run of decimal digits read as a number.
pub fn parse_usize(bytes: &[u8]) -> (r: Option<usize>)
    requires
        digits_fit(bytes@, usize::MAX as nat),
    ensures
        match r {
            Some(n) => parse_decimal(bytes@) == Some(n as nat),
            None => parse_decimal(bytes@) is None,
        },
{
    crate::sources::text::parse_decimal_exec(bytes)
}

/// The path of a link.
pub fn path_from_href(href: &[u8]) -> (r: Option<&[u8]>)
    ensures
        match r {
            Some(v) => path_of(href@) == Some(v@),
            None => path_of(href@) is None,
        },
{
    crate::sources::site::path_from_href(href)
}

/// Writes a URL as the payloads carry it (`//host` gets `http:`).
pub fn write_json_url(dst: &mut [u8], c: &mut usize, url: &[u8]) -> (ok: bool)
    requires
        *old(c) <= old(dst)@.len(),
    ensures
        appended(old(dst)@, *old(c) as int, json_url_text(url@, "http:".spec_bytes(), BASE_URL.spec_bytes()), final(dst)@, *final(c) as int, ok),
        final(dst)@.len() == old(dst)@.len(),
        *final(c) <= final(dst)@.len(),
{
    crate::sources::site::write_json_url(dst, c, url, "http:", BASE_URL)
}

/// Writes a manga card, after a comma unless it is the first.
pub fn write_manga_item(payload: &mut [u8], c: &mut usize, id: &[u8], title: &[u8], cover: &[u8], written: usize) -> (ok: bool)
    requires
        *old(c) <= old(payload)@.len(),
    ensures
        appended(
            old(payload)@,
            *old(c) as int,
            item_unit(written > 0, manga_item_json(id@, title@, cover@, "http:".spec_bytes(), BASE_URL.spec_bytes(), ITEM_TAIL.spec_bytes())),
            final(payload)@,
            *final(c) as int,
            ok,
        ),
        final(payload)@.len() == old(payload)@.len(),
        *final(c) <= final(payload)@.len(),
{
    crate::sources::site::write_manga_item(payload, c, id, title, cover, written, "http:", BASE_URL, ITEM_TAIL)
}

pub const DOMAIN_MARKER: &'static str = "domain\":[\"";

pub open spec fn not_quote_fn() -> spec_fn(u8) -> bool {
    |b: u8| b != 34
}

/// The image host the reader's configuration names: the first entry of
/// its `domain` list.
pub open spec fn config_host_of(config: Seq<u8>) -> Option<Seq<u8>> {
    match find(config, DOMAIN_MARKER.spec_bytes()) {
        None => None,
        Some(p) => {
            let start = p + DOMAIN_MARKER.spec_bytes().len();
            let end = skip_while(config, start, not_quote_fn());
            if end == start || end >= config.len() {
                None
            } else {
                Some(config.subrange(start, end))
            }
        },
    }
}

/// Copies the image host of the reader's configuration into `out` and
/// returns its length; `None` when there is none or it does not fit.
pub fn extract_config_host(config: &[u8], out: &mut [u8]) -> (r: Option<usize>)
    ensures
        final(out)@.len() == old(out)@.len(),
        match r {
            Some(n) => config_host_of(config@) == Some(final(out)@.take(n as int)) && n <= old(out)@.len()
                && final(out)@.skip(n as int) == old(out)@.skip(n as int),
            None => config_host_of(config@) is None || config_host_of(config@).unwrap().len() > old(out)@.len(),
        },
{
    let marker = DOMAIN_MARKER.as_bytes();
    let p = match find_subslice(config, marker) {
        Some(v) => v,
        None => return None,
    };
    assert(p + marker.len() <= config.len());
    let start: usize = p + marker.len();
    let ghost nq = not_quote_fn();
    let mut end = start;
    while end < config.len() && config[end] != 34
        invariant
            start <= end <= config@.len(),
            nq == not_quote_fn(),
            skip_while(config@, start as int, nq) == skip_while(config@, end as int, nq),
        decreases config@.len() - end,
    {
        end = end + 1;
    }
    if end == start || end >= config.len() || end - start > out.len() {
        return None;
    }
    let mut c: usize = 0;
    let ok = crate::json_utils::write_bytes(out, &mut c, slice_subrange(config, start, end));
    assert(ok);
    assert(out@.take(c as int) =~= config@.subrange(start as int, end as int));
    assert(out@.skip(c as int) =~= old(out)@.skip(c as int));
    Some(c)
}

/// The JavaScript string that starts with the quote at `start`, and the
/// position after its closing quote.
pub open spec fn js_string_at(data: Seq<u8>, start: int) -> Option<(Seq<u8>, int)> {
    if start < 0 || start >= data.len() || data[start] != 34 {
        None
    } else {
        match crate::json_utils::string_close(data, start + 1) {
            None => None,
            Some(e) => Some((data.subrange(start + 1, e), e + 1)),
        }
    }
}

pub fn extract_js_string<'a>(data: &'a [u8], start: usize) -> (r: Option<(&'a [u8], usize)>)
    ensures
        match r {
            Some((s, e)) => js_string_at(data@, start as int) == Some((s@, e as int)) && start < e <= data@.len(),
            None => js_string_at(data@, start as int) is None,
        },
{
    if start >= data.len() || data[start] != 34 {
        return None;
    }
    match crate::json_utils::string_close_exec(data, start + 1) {
        Some(e) => Some((slice_subrange(data, start + 1, e), e + 1)),
        None => None,
    }
}

/// The chapter path the reader page names after `chapterPath`.
pub open spec fn chapter_path_of(html: Seq<u8>) -> Option<Seq<u8>> {
    match find(html, "chapterPath".spec_bytes()) {
        None => None,
        Some(p) => {
            let rest = html.skip(p + 11);
            match find(rest, "\"".spec_bytes()) {
                None => None,
                Some(q) => match js_string_at(rest, q) {
                    Some((s, _e)) => Some(s),
                    None => None,
                },
            }
        },
    }
}

pub fn extract_chapter_path<'a>(html: &'a [u8]) -> (r: Option<&'a [u8]>)
    ensures
        match r {
            Some(v) => chapter_path_of(html@) == Some(v@),
            None => chapter_path_of(html@) is None,
        },
{
    proof {
        reveal_strlit("chapterPath");
        broadcast use vstd::string::is_ascii_spec_bytes;
        assert(vstd::string::is_ascii("chapterPath"));
    }
    let marker = "chapterPath".as_bytes();
    let p = match find_subslice(html, marker) {
        Some(v) => v,
        None => return None,
    };
    assert(p + marker.len() <= html.len());
    let rest = slice_subrange(html, p + 11, html.len());
    assert(rest@ =~= html@.skip(p + 11));
    let q = match find_subslice(rest, "\"".as_bytes()) {
        Some(v) => v,
        None => return None,
    };
    match extract_js_string(rest, q) {
        Some((s, _e)) => Some(s),
        None => None,
    }
}

/// A page image URL as the payloads carry it: an absolute URL (plain or
/// with escaped slashes) as it is, a rooted path after the host, a bare
/// name after the host and the chapter path.
pub open spec fn page_url_text(host: Seq<u8>, chapter_path: Seq<u8>, image: Seq<u8>) -> Seq<u8> {
    if has_prefix(image, "https://".spec_bytes()) || has_prefix(image, "http://".spec_bytes()) {
        reescaped(image)
    } else if has_prefix(image, "https:\\/\\/".spec_bytes()) || has_prefix(image, "http:\\/\\/".spec_bytes()) {
        reescaped(image)
    } else if has_prefix(image, "\\/".spec_bytes()) || has_prefix(image, "/".spec_bytes()) {
        escaped(host) + reescaped(image)
    } else {
        escaped(host) + "/".spec_bytes() + escaped(chapter_path) + reescaped(image)
    }
}

/// The units a page image URL is written in.
pub open spec fn page_url_units(host: Seq<u8>, chapter_path: Seq<u8>, image: Seq<u8>) -> Seq<Seq<u8>> {
    let e = crate::json_utils::escape_fn();
    let none = Seq::<u8>::empty();
    let r = crate::json_utils::reescape_units_from(image, 0);
    if has_prefix(image, "https://".spec_bytes()) || has_prefix(image, "http://".spec_bytes()) {
        r + seq![none, none, none]
    } else if has_prefix(image, "https:\\/\\/".spec_bytes()) || has_prefix(image, "http:\\/\\/".spec_bytes()) {
        r + seq![none, none, none]
    } else if has_prefix(image, "\\/".spec_bytes()) || has_prefix(image, "/".spec_bytes()) {
        crate::units::byte_units(host, e) + r + seq![none, none]
    } else {
        crate::units::byte_units(host, e) + seq!["/".spec_bytes()] + crate::units::byte_units(chapter_path, e) + r
    }
}

pub fn write_page_url(payload: &mut [u8], c: &mut usize, host: &[u8], chapter_path: &[u8], image: &[u8]) -> (ok: bool)
    requires
        *old(c) <= old(payload)@.len(),
    ensures
        appended(old(payload)@, *old(c) as int, page_url_text(host@, chapter_path@, image@), final(payload)@, *final(c) as int, ok),
        crate::units::wrote_units(
            old(payload)@,
            *old(c) as int,
            page_url_units(host@, chapter_path@, image@),
            final(payload)@,
            *final(c) as int,
            ok,
        ),
        final(payload)@.len() == old(payload)@.len(),
        *final(c) <= final(payload)@.len(),
{
    let ps = if starts_with(image, "https://".as_bytes()) || starts_with(image, "http://".as_bytes()) {
        [Piece::Reescaped(image), Piece::Text(""), Piece::Text(""), Piece::Text("")]
    } else if starts_with(image, "https:\\/\\/".as_bytes()) || starts_with(image, "http:\\/\\/".as_bytes()) {
        [Piece::Reescaped(image), Piece::Text(""), Piece::Text(""), Piece::Text("")]
    } else if starts_with(image, "\\/".as_bytes()) || starts_with(image, "/".as_bytes()) {
        [Piece::Escaped(host), Piece::Reescaped(image), Piece::Text(""), Piece::Text("")]
    } else {
        [Piece::Escaped(host), Piece::Text("/"), Piece::Escaped(chapter_path), Piece::Reescaped(image)]
    };
    proof {
        reveal_strlit("");
        reveal_with_fuel(pieces_bytes, 5);
        assert(pieces_bytes(ps@) =~= page_url_text(host@, chapter_path@, image@));
        reveal_with_fuel(crate::pieces::pieces_units, 5);
        assert(crate::pieces::pieces_units(ps@) =~= page_url_units(host@, chapter_path@, image@));
    }
    put_pieces(payload, c, &ps)
}


/// The URL of list page `page`: a search for `query`, or the list by
/// clicks.
pub open spec fn list_url_of(query: Option<Seq<u8>>, page: nat) -> Seq<u8> {
    match query {
        Some(q) => BASE_URL.spec_bytes() + "/search/?keywords=".spec_bytes() + crate::json_utils::url_encoded(q)
            + "&page=".spec_bytes() + crate::json_utils::decimal(page),
        None => BASE_URL.spec_bytes() + "/list/click/?page=".spec_bytes() + crate::json_utils::decimal(page),
    }
}

/// Writes the URL of list page `page` into `out`; its length, or `None`
/// when it does not fit.
pub fn list_url(query: Option<&[u8]>, page: usize, out: &mut [u8]) -> (r: Option<usize>)
    ensures
        final(out)@.len() == old(out)@.len(),
        match r {
            Some(n) => n == list_url_of(crate::sources::bh3::opt_view(query), page as nat).len() && final(out)@.take(n as int)
                == list_url_of(crate::sources::bh3::opt_view(query), page as nat),
            None => list_url_of(crate::sources::bh3::opt_view(query), page as nat).len() > old(out)@.len(),
        },
{
    proof {
        reveal_strlit("");
    }
    let ps = match query {
        Some(q) => [Piece::Text(BASE_URL), Piece::Text("/search/?keywords="), Piece::UrlEncoded(q), Piece::Text("&page="), Piece::Number(page)],
        None => [Piece::Text(BASE_URL), Piece::Text("/list/click/?page="), Piece::Number(page), Piece::Text(""), Piece::Text("")],
    };
    proof {
        reveal_with_fuel(pieces_bytes, 6);
        assert(pieces_bytes(ps@) =~= list_url_of(crate::sources::bh3::opt_view(query), page as nat));
    }
    let mut c: usize = 0;
    if !put_pieces(out, &mut c, &ps) {
        return None;
    }
    Some(c)
}

/// The status a trimmed status text gives.
pub open spec fn status_word(text: Seq<u8>) -> Seq<u8> {
    if find(trimmed(text), "已完结".spec_bytes()) is Some {
        "completed".spec_bytes()
    } else if find(trimmed(text), "连载中".spec_bytes()) is Some {
        "ongoing".spec_bytes()
    } else {
        "unknown".spec_bytes()
    }
}

fn status_text(text: &[u8]) -> (r: &'static str)
    ensures
        r.spec_bytes() == status_word(text@),
{
    let t = trim_ascii(text);
    if find_subslice(t, "已完结".as_bytes()).is_some() {
        "completed"
    } else if find_subslice(t, "连载中".as_bytes()).is_some() {
        "ongoing"
    } else {
        "unknown"
    }
}

/// The manga payload of manga `id` (its page at `url`): the title (the
/// id when there is none), description and cover selected, the author's
/// line without its label, and the status line.
pub open spec fn detail_json(
    id: Seq<u8>,
    url: Seq<u8>,
    title: Option<Seq<u8>>,
    cover: Seq<u8>,
    author: Seq<u8>,
    status: Seq<u8>,
    desc: Seq<u8>,
) -> Seq<u8> {
    "{\"manga\":{\"id\":\"".spec_bytes() + escaped(id) + "\",\"title\":\"".spec_bytes() + escaped(
        crate::sources::bh3::or_else(title, id),
    ) + "\",\"alternateTitles\":[],\"description\":\"".spec_bytes() + escaped(desc)
        + "\",\"cover\":{\"kind\":\"url\",\"url\":\"".spec_bytes() + json_url_text(
        cover,
        "http:".spec_bytes(),
        BASE_URL.spec_bytes(),
    ) + detail_close(url, stripped_of(trimmed(author), "作者：".spec_bytes()), status)
}

/// The manga payload after its cover URL.
pub open spec fn detail_close(url: Seq<u8>, author: Seq<u8>, status: Seq<u8>) -> Seq<u8> {
    "\"},\"authors\":[".spec_bytes() + crate::sources::mh1234::quoted_or_empty(author)
        + "],\"artists\":[],\"status\":\"".spec_bytes() + status_word(status)
        + "\",\"contentRating\":\"safe\",\"language\":\"zh\",\"tags\":[],\"links\":[{\"kind\":\"source\",\"url\":\"".spec_bytes()
        + escaped(url) + "\"}]}}".spec_bytes()
}

fn quote_for(v: &[u8]) -> (q: &'static str)
    ensures
        q.spec_bytes() + escaped(v@) + q.spec_bytes() == crate::sources::mh1234::quoted_or_empty(v@),
{
    proof {
        reveal_strlit("");
        reveal_strlit("\"");
    }
    if v.len() > 0 {
        "\""
    } else {
        assert(escaped(v@) =~= Seq::<u8>::empty()) by {
            reveal_with_fuel(crate::json_utils::per_byte, 1);
        }
        assert(Seq::<u8>::empty() + Seq::<u8>::empty() + Seq::<u8>::empty() =~= Seq::<u8>::empty());
        ""
    }
}

/// Writes the manga payload of manga `id` (its page at `url`) from what
/// the page shows; its length, or `None` when it does not fit.
#[verifier::spinoff_prover]
#[verifier::rlimit(40)]
pub fn detail_payload(
    id: &[u8],
    url: &[u8],
    title: Option<&[u8]>,
    cover: &[u8],
    author: &[u8],
    status: &[u8],
    desc: &[u8],
    payload: &mut [u8],
) -> (r: Option<usize>)
    ensures
        final(payload)@.len() == old(payload)@.len(),
        match r {
            Some(n) => n == detail_json(id@, url@, crate::sources::bh3::opt_view(title), cover@, author@, status@, desc@).len()
                && final(payload)@.take(n as int) == detail_json(id@, url@, crate::sources::bh3::opt_view(title), cover@, author@, status@, desc@),
            None => detail_json(id@, url@, crate::sources::bh3::opt_view(title), cover@, author@, status@, desc@).len() > old(payload)@.len(),
        },
{
    let t = match title {
        Some(v) => v,
        None => id,
    };
    let au = strip_prefix_ascii(trim_ascii(author), "作者：".as_bytes());
    let qa = quote_for(au);
    let word = status_text(status);
    let a = [
        Piece::Text("{\"manga\":{\"id\":\""),
        Piece::Escaped(id),
        Piece::Text("\",\"title\":\""),
        Piece::Escaped(t),
        Piece::Text("\",\"alternateTitles\":[],\"description\":\""),
        Piece::Escaped(desc),
        Piece::Text("\",\"cover\":{\"kind\":\"url\",\"url\":\""),
    ];
    let z = [
        Piece::Text("\"},\"authors\":["),
        Piece::Text(qa),
        Piece::Escaped(au),
        Piece::Text(qa),
        Piece::Text("],\"artists\":[],\"status\":\""),
        Piece::Text(word),
        Piece::Text("\",\"contentRating\":\"safe\",\"language\":\"zh\",\"tags\":[],\"links\":[{\"kind\":\"source\",\"url\":\""),
        Piece::Escaped(url),
        Piece::Text("\"}]}}"),
    ];
    let ghost ua = pieces_bytes(a@);
    let ghost ub = json_url_text(cover@, "http:".spec_bytes(), BASE_URL.spec_bytes());
    let ghost uz = pieces_bytes(z@);
    proof {
        assert(ua =~= "{\"manga\":{\"id\":\"".spec_bytes() + escaped(id@) + "\",\"title\":\"".spec_bytes() + escaped(t@)
            + "\",\"alternateTitles\":[],\"description\":\"".spec_bytes() + escaped(desc@)
            + "\",\"cover\":{\"kind\":\"url\",\"url\":\"".spec_bytes()) by {
            reveal_with_fuel(pieces_bytes, 8);
        }
        assert(uz =~= detail_close(url@, au@, status@)) by {
            reveal_with_fuel(pieces_bytes, 10);
        }
        assert(ua + ub + uz =~= detail_json(id@, url@, crate::sources::bh3::opt_view(title), cover@, author@, status@, desc@));
    }
    let mut c: usize = 0;
    let ghost d0 = payload@;
    if !put_pieces(payload, &mut c, &a) {
        proof {
            crate::json_utils::lemma_appended_fail_extend(d0, 0, ua, payload@, c as int, ub + uz);
            assert(ua + (ub + uz) =~= ua + ub + uz);
        }
        return None;
    }
    let ghost dm = payload@;
    let ghost cm = c as int;
    let ok = write_json_url(payload, &mut c, cover);
    proof {
        crate::json_utils::lemma_appended_then(d0, 0, ua, dm, cm, ub, payload@, c as int, ok);
    }
    if !ok {
        proof {
            crate::json_utils::lemma_appended_fail_extend(d0, 0, ua + ub, payload@, c as int, uz);
        }
        return None;
    }
    let ghost dm2 = payload@;
    let ghost cm2 = c as int;
    let ok = put_pieces(payload, &mut c, &z);
    proof {
        crate::json_utils::lemma_appended_then(d0, 0, ua + ub, dm2, cm2, uz, payload@, c as int, ok);
    }
    if !ok {
        return None;
    }
    Some(c)
}

} // verus!
