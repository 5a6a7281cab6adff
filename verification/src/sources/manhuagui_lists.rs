//! The Manhuagui lists: manga cards read from a search or a list page,
//! and the chapters of a manga read from its mobile page.
use vstd::prelude::*;
use vstd::slice::slice_subrange;
use vstd::string::StringSliceAdditionalSpecFns;
use crate::json_utils::{
    appended, contains_bytes, decimal, escaped, extract_json_string, find, find_subslice,
    json_string_value, lemma_appended_fail_extend, lemma_appended_then, put_str, url_encoded,
};
use crate::pieces::{item_unit, item_units, pieces_bytes, pieces_units, put_pieces, Piece};
use crate::units::{byte_units, wrote_units};
use crate::json_utils::escape_fn;
use crate::sources::bh3::{has_prefix, or_else, starts_with};
use crate::sources::dm5::{first_number, first_number_of};
use crate::sources::manhuagui::{card_json, write_card, BASE_URL};
use crate::sources::manhuagui_pages::{chapter_url, chapter_url_of};
use crate::sources::text::trimmed;

verus! {

/// Where the slug of a link that starts at `start` stops, looking from `i`:
/// before a `?` or `#`, or just past a `/` more than five bytes in.
pub open spec fn slug_end(href: Seq<u8>, start: int, i: int) -> int
    decreases href.len() - i,
{
    if i < 0 || i >= href.len() {
        href.len() as int
    } else if href[i] == 63 || href[i] == 35 {
        i
    } else if href[i] == 47 && i > start + 5 {
        i + 1
    } else {
        slug_end(href, start, i + 1)
    }
}

/// The manga slug of a link (`comic/<id>` after its `/comic/`, or the link
/// itself when it starts with `comic/`) when it fits `cap` bytes and is
/// not empty, without a trailing `/`.
pub open spec fn slug_of(href: Seq<u8>, cap: nat) -> Option<Seq<u8>> {
    let start = match find(href, "/comic/".spec_bytes()) {
        Some(p) => Some(p + 1),
        None => if has_prefix(href, "comic/".spec_bytes()) {
            Some(0int)
        } else {
            None
        },
    };
    match start {
        None => None,
        Some(s) => {
            let run = href.subrange(s, slug_end(href, s, s));
            if run.len() > cap {
                None
            } else {
                let v = if run.len() > 0 && run.last() == 47 {
                    run.drop_last()
                } else {
                    run
                };
                if v.len() == 0 {
                    None
                } else {
                    Some(v)
                }
            }
        },
    }
}

proof fn lemma_slug_end_bounds(href: Seq<u8>, start: int, i: int)
    requires
        0 <= i,
    ensures
        i <= slug_end(href, start, i) <= href.len() || i > href.len(),
    decreases href.len() - i,
{
    if i < href.len() && !(href[i] == 63 || href[i] == 35) && !(href[i] == 47 && i > start + 5) {
        lemma_slug_end_bounds(href, start, i + 1);
    }
}

/// The manga slug of a link, when it names one that fits `cap` bytes.
pub fn manga_slug(href: &[u8], cap: usize) -> (r: Option<&[u8]>)
    ensures
        match r {
            Some(v) => slug_of(href@, cap as nat) == Some(v@),
            None => slug_of(href@, cap as nat) is None,
        },
{
    proof {
        reveal_strlit("/comic/");
        broadcast use vstd::string::is_ascii_spec_bytes;
        assert(vstd::string::is_ascii("/comic/"));
    }
    let hl: usize = href.len();
    let start = match find_subslice(href, "/comic/".as_bytes()) {
        Some(p) => {
            assert(p + 7 <= hl);
            p + 1
        },
        None => if starts_with(href, "comic/".as_bytes()) {
            0
        } else {
            return None;
        },
    };
    let mut i = start;
    while i < href.len() && href[i] != 63 && href[i] != 35 && !(href[i] == 47 && i - start > 5)
        invariant
            start <= i <= href@.len(),
            slug_end(href@, start as int, start as int) == slug_end(href@, start as int, i as int),
        decreases href@.len() - i,
    {
        i = i + 1;
    }
    let end = if i < href.len() && href[i] == 47 && i - start > 5 {
        i + 1
    } else {
        i
    };
    proof {
        lemma_slug_end_bounds(href@, start as int, start as int);
    }
    assert(end == slug_end(href@, start as int, start as int));
    if end - start > cap {
        return None;
    }
    let run = slice_subrange(href, start, end);
    let v = if run.len() > 0 && run[run.len() - 1] == 47 {
        let w = slice_subrange(run, 0, run.len() - 1);
        assert(w@ =~= run@.drop_last());
        w
    } else {
        run
    };
    if v.len() == 0 {
        return None;
    }
    Some(v)
}

/// Writes the card of manga `id`, after a comma unless it is the first.
pub fn write_card_item(payload: &mut [u8], c: &mut usize, first: bool, id: &[u8], title: &[u8], cover: &[u8]) -> (ok: bool)
    requires
        *old(c) <= old(payload)@.len(),
    ensures
        appended(old(payload)@, *old(c) as int, item_unit(!first, card_json(id@, title@, cover@)), final(payload)@, *final(c) as int, ok),
        wrote_units(
            old(payload)@,
            *old(c) as int,
            item_units(!first, crate::sources::manhuagui::card_units(id@, title@, cover@)),
            final(payload)@,
            *final(c) as int,
            ok,
        ),
        final(payload)@.len() == old(payload)@.len(),
        *final(c) <= final(payload)@.len(),
{
    let ghost d0 = payload@;
    let ghost c0 = *c as int;
    let ghost card = card_json(id@, title@, cover@);
    let ghost us = crate::sources::manhuagui::card_units(id@, title@, cover@);
    if first {
        let ok = write_card(payload, c, id, title, cover);
        assert(item_unit(false, card) =~= card);
        assert(item_units(false, us) =~= us);
        return ok;
    }
    proof {
        reveal_strlit(",");
    }
    if !put_str(payload, c, ",") {
        proof {
            lemma_appended_fail_extend(d0, c0, ",".spec_bytes(), payload@, *c as int, card);
            crate::units::lemma_wrote_fail_extend(d0, c0, seq![",".spec_bytes()], payload@, *c as int, us);
        }
        return false;
    }
    let ghost dm = payload@;
    let ghost cm = *c as int;
    let ok = write_card(payload, c, id, title, cover);
    proof {
        lemma_appended_then(d0, c0, ",".spec_bytes(), dm, cm, card, payload@, *c as int, ok);
        crate::units::lemma_wrote_then(d0, c0, seq![",".spec_bytes()], dm, cm, us, payload@, *c as int, ok);
    }
    ok
}

/// Whether a list page looks like one that goes on.
pub open spec fn more_pages_of(html: Seq<u8>) -> bool {
    find(html, "_p".spec_bytes()) is Some || find(html, "下一页".spec_bytes()) is Some || find(html, "next".spec_bytes()) is Some
}

pub fn more_pages(html: &[u8]) -> (r: bool)
    ensures
        r == more_pages_of(html@),
{
    contains_bytes(html, "_p".as_bytes()) || contains_bytes(html, "下一页".as_bytes()) || contains_bytes(html, "next".as_bytes())
}

/// The text a search asks for, when it names one.
pub open spec fn search_query_of(req: Seq<u8>) -> Option<Seq<u8>> {
    match json_string_value(req, "query".spec_bytes()) {
        Some(q) => if q.len() > 0 {
            Some(q)
        } else {
            None
        },
        None => None,
    }
}

pub fn search_query(req: &[u8]) -> (r: Option<&[u8]>)
    ensures
        match r {
            Some(v) => search_query_of(req@) == Some(v@),
            None => search_query_of(req@) is None,
        },
{
    match extract_json_string(req, "query".as_bytes()) {
        Some(q) => if q.len() > 0 {
            Some(q)
        } else {
            None
        },
        None => None,
    }
}

/// The URL of list page `page`: a search for `query`, or the list by
/// views.
pub open spec fn list_url_of(query: Option<Seq<u8>>, page: nat) -> Seq<u8> {
    match query {
        Some(q) => BASE_URL.spec_bytes() + "/s/".spec_bytes() + url_encoded(q) + "_p".spec_bytes() + decimal(page)
            + ".html".spec_bytes(),
        None => BASE_URL.spec_bytes() + "/list/view_p".spec_bytes() + decimal(page) + ".html".spec_bytes(),
    }
}

/// A search URL carries its query: after the site and `/s/`, and before
/// `_p`, the page and `.html`, stands text that percent-decodes to the
/// query itself.
pub proof fn law_search_url_recovers_query(q: Seq<u8>, page: nat)
    ensures
        ({
            let u = list_url_of(Some(q), page);
            let head = BASE_URL.spec_bytes() + "/s/".spec_bytes();
            let tail = "_p".spec_bytes() + decimal(page) + ".html".spec_bytes();
            &&& u.len() >= head.len() + tail.len()
            &&& u.take(head.len() as int) == head
            &&& u.skip(u.len() - tail.len()) == tail
            &&& crate::json_utils::url_decoded(u.subrange(head.len() as int, u.len() - tail.len())) == q
        }),
{
    let u = list_url_of(Some(q), page);
    let head = BASE_URL.spec_bytes() + "/s/".spec_bytes();
    let tail = "_p".spec_bytes() + decimal(page) + ".html".spec_bytes();
    let mid = url_encoded(q);
    assert(u =~= head + mid + tail);
    assert(u.take(head.len() as int) =~= head);
    assert(u.skip(u.len() - tail.len()) =~= tail);
    assert(u.subrange(head.len() as int, u.len() - tail.len()) =~= mid);
    crate::json_utils::law_url_decoding_undoes_encoding(q);
}

/// Searches for different queries ask for different URLs.
pub proof fn law_search_urls_differ(q1: Seq<u8>, q2: Seq<u8>, page: nat)
    requires
        q1 != q2,
    ensures
        list_url_of(Some(q1), page) != list_url_of(Some(q2), page),
{
    law_search_url_recovers_query(q1, page);
    law_search_url_recovers_query(q2, page);
}

/// Writes the URL of list page `page` into `out`; its length, or `None`
/// when it does not fit.
pub fn list_url(query: Option<&[u8]>, page: usize, out: &mut [u8]) -> (r: Option<usize>)
    ensures
        final(out)@.len() == old(out)@.len(),
        match r {
            Some(n) => n == list_url_of(crate::sources::bh3::opt_view(query), page as nat).len() && final(out)@.take(n as int)
                == list_url_of(crate::sources::bh3::opt_view(query), page as nat),
            None => list_url_of(crate::sources::bh3::opt_view(query), page as nat).len() > old(out)@.len(),
        },
{
    let ps = match query {
        Some(q) => [Piece::Text(BASE_URL), Piece::Text("/s/"), Piece::UrlEncoded(q), Piece::Text("_p"), Piece::Number(page), Piece::Text(".html")],
        None => [Piece::Text(BASE_URL), Piece::Text("/list/view_p"), Piece::Number(page), Piece::Text(".html"), Piece::Raw("".as_bytes()), Piece::Raw("".as_bytes())],
    };
    proof {
        reveal_strlit("");
        reveal_with_fuel(pieces_bytes, 7);
        assert(pieces_bytes(ps@) =~= list_url_of(crate::sources::bh3::opt_view(query), page as nat));
    }
    let mut c: usize = 0;
    if !put_pieces(out, &mut c, &ps) {
        return None;
    }
    Some(c)
}

pub const LISTINGS: &'static str =
    "{\"listings\":[{\"id\":\"popular\",\"title\":\"Popular\",\"supportsLatest\":false,\"filters\":[]}],\"defaultListingId\":\"popular\"}";

pub const CHAPTER_TAIL: &'static str =
    "\",\"volumeNumber\":null,\"language\":\"zh\",\"publishedAt\":null,\"updatedAt\":null,\"pageCount\":null}";

/// A chapter of manga `id`: the reader at `url`, titled `title` (trimmed),
/// numbered by the first number in the title.
pub open spec fn chapter_json(url: Seq<u8>, id: Seq<u8>, title: Seq<u8>) -> Seq<u8> {
    "{\"id\":\"".spec_bytes() + escaped(url) + "\",\"mangaId\":\"".spec_bytes() + escaped(id)
        + "\",\"title\":\"".spec_bytes() + escaped(trimmed(title)) + "\",\"chapterNumber\":\"".spec_bytes()
        + escaped(or_else(first_number_of(title), Seq::empty())) + CHAPTER_TAIL.spec_bytes()
}

/// The units the chapter at the reader URL `url` is written in.
pub open spec fn chapter_units(url: Seq<u8>, id: Seq<u8>, title: Seq<u8>) -> Seq<Seq<u8>> {
    seq!["{\"id\":\"".spec_bytes()] + byte_units(url, escape_fn()) + seq!["\",\"mangaId\":\"".spec_bytes()] + byte_units(
        id,
        escape_fn(),
    ) + seq!["\",\"title\":\"".spec_bytes()] + byte_units(trimmed(title), escape_fn()) + seq![
        "\",\"chapterNumber\":\"".spec_bytes(),
    ] + byte_units(or_else(first_number_of(title), Seq::empty()), escape_fn()) + seq![CHAPTER_TAIL.spec_bytes()]
}

/// Writes the chapter of manga `id` that the link `href` titled `title`
/// leads to, after a comma unless it is the first; `None` (and nothing
/// written) when the reader's URL is longer than 512 bytes, as such a
/// chapter is passed over.
pub fn write_chapter(payload: &mut [u8], c: &mut usize, first: bool, id: &[u8], href: &[u8], title: &[u8]) -> (r: Option<bool>)
    requires
        *old(c) <= old(payload)@.len(),
    ensures
        final(payload)@.len() == old(payload)@.len(),
        *final(c) <= final(payload)@.len(),
        match r {
            None => chapter_url_of(href@).len() > 512 && final(payload)@ == old(payload)@ && *final(c) == *old(c),
            Some(ok) => chapter_url_of(href@).len() <= 512 && appended(
                old(payload)@,
                *old(c) as int,
                item_unit(!first, chapter_json(chapter_url_of(href@), id@, title@)),
                final(payload)@,
                *final(c) as int,
                ok,
            ) && wrote_units(
                old(payload)@,
                *old(c) as int,
                item_units(!first, chapter_units(chapter_url_of(href@), id@, title@)),
                final(payload)@,
                *final(c) as int,
                ok,
            ),
        },
{
    let mut abs: [u8; 512] = [0; 512];
    let n = match chapter_url(href, &mut abs) {
        Some(n) => n,
        None => {
            return None;
        },
    };
    let url = slice_subrange(&abs, 0, n);
    proof {
        reveal_strlit("");
    }
    let num = match first_number(title) {
        Some(v) => v,
        None => "".as_bytes(),
    };
    let ps = [
        Piece::Text("{\"id\":\""),
        Piece::Escaped(url),
        Piece::Text("\",\"mangaId\":\""),
        Piece::Escaped(id),
        Piece::Text("\",\"title\":\""),
        Piece::Escaped(crate::sources::dm5::trim_ascii(title)),
        Piece::Text("\",\"chapterNumber\":\""),
        Piece::Escaped(num),
        Piece::Text(CHAPTER_TAIL),
    ];
    proof {
        reveal_with_fuel(pieces_bytes, 10);
        assert(pieces_bytes(ps@) =~= chapter_json(chapter_url_of(href@), id@, title@));
        reveal_with_fuel(pieces_units, 10);
        assert(pieces_units(ps@) =~= chapter_units(chapter_url_of(href@), id@, title@));
    }
    Some(crate::pieces::put_item(payload, c, first, &ps))
}

} // verus!
