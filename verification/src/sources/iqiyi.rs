//! The iqiyi source's link paths and numbers (its pages are read through
//! the host's HTML parser).
use vstd::prelude::*;
use vstd::slice::slice_subrange;
use vstd::string::StringSliceAdditionalSpecFns;
use crate::json_utils::{appended, contains_bytes, escaped, find, find_subslice, put_str};
use crate::pieces::{item_unit, pieces_bytes, put_item, put_pieces_then, Piece};
use crate::sources::bh3::{opt_view, or_else};
use crate::sources::mh1234::quoted_or_empty;
use crate::sources::site::{id_rest, path_of, rest_after};
use crate::sources::text::{digits_fit, parse_decimal};

verus! {

/// The path of a manga link: the link itself when rooted, else what
/// follows its scheme and host.
pub fn manga_path_from_href(href: &[u8]) -> (r: Option<&[u8]>)
    ensures
        match r {
            Some(v) => path_of(href@) == Some(v@),
            None => path_of(href@) is None,
        },
{
    crate::sources::site::path_from_href(href)
}

/// A non-empty run of decimal digits read as a number.
pub fn parse_usize(bytes: &[u8]) -> (r: Option<usize>)
    requires
        digits_fit(bytes@, usize::MAX as nat),
    ensures
        match r {
            Some(n) => parse_decimal(bytes@) == Some(n as nat),
            None => parse_decimal(bytes@) is None,
        },
{
    crate::sources::text::parse_decimal_exec(bytes)
}


pub const BASE_URL: &'static str = "https://www.iqiyi.com";

/// The path of a manga: its id after `manga:`.
pub fn manga_path(manga_id: &[u8]) -> (r: Option<&[u8]>)
    ensures
        match r {
            Some(v) => id_rest(manga_id@, "manga:".spec_bytes()) == Some(v@),
            None => id_rest(manga_id@, "manga:".spec_bytes()) is None,
        },
{
    rest_after(manga_id, "manga:".as_bytes())
}

pub const CARD_TAIL: &'static str =
    "\"},\"authors\":[],\"status\":\"unknown\",\"contentRating\":\"safe\",\"description\":\"\",\"sourceTags\":[\"iqiyi\"]}";

pub const NEXT_PAGE: &'static str = "下一页";

/// Whether a category page links a next page.
pub open spec fn category_has_more(html: Seq<u8>) -> bool {
    find(html, "class=\"a1\"".spec_bytes()) is Some && find(html, NEXT_PAGE.spec_bytes()) is Some
}

/// Whether a search page links a next page.
pub open spec fn search_has_more(html: Seq<u8>) -> bool {
    find(html, NEXT_PAGE.spec_bytes()) is Some
}

pub fn category_more(html: &[u8]) -> (r: bool)
    ensures
        r == category_has_more(html@),
{
    contains_bytes(html, "class=\"a1\"".as_bytes()) && contains_bytes(html, NEXT_PAGE.as_bytes())
}

pub fn search_more(html: &[u8]) -> (r: bool)
    ensures
        r == search_has_more(html@),
{
    contains_bytes(html, NEXT_PAGE.as_bytes())
}

/// The status the whole page gives.
pub open spec fn status_word(html: Seq<u8>) -> Seq<u8> {
    if find(html, "完结".spec_bytes()) is Some {
        "completed".spec_bytes()
    } else if find(html, "连载".spec_bytes()) is Some {
        "ongoing".spec_bytes()
    } else {
        "unknown".spec_bytes()
    }
}

fn status_text(html: &[u8]) -> (r: &'static str)
    ensures
        r.spec_bytes() == status_word(html@),
{
    if contains_bytes(html, "完结".as_bytes()) {
        "completed"
    } else if contains_bytes(html, "连载".as_bytes()) {
        "ongoing"
    } else {
        "unknown"
    }
}

/// The genre as a tag: quoted when the page shows one.
pub open spec fn genre_tag(genre: Option<Seq<u8>>) -> Seq<u8> {
    match genre {
        Some(g) => "\"".spec_bytes() + escaped(g) + "\"".spec_bytes(),
        None => Seq::empty(),
    }
}

/// The manga payload of the manga at `path` (its page `html` at `url`),
/// from the title, cover, author, description and genre the page shows.
pub open spec fn detail_json(
    html: Seq<u8>,
    path: Seq<u8>,
    url: Seq<u8>,
    title: Option<Seq<u8>>,
    cover: Option<Seq<u8>>,
    author: Seq<u8>,
    desc: Option<Seq<u8>>,
    genre: Option<Seq<u8>>,
) -> Seq<u8> {
    detail_head(path, title, cover, author, desc) + detail_rest(html, url, genre)
}

/// The manga payload up to its author.
pub open spec fn detail_head(
    path: Seq<u8>,
    title: Option<Seq<u8>>,
    cover: Option<Seq<u8>>,
    author: Seq<u8>,
    desc: Option<Seq<u8>>,
) -> Seq<u8> {
    "{\"manga\":{\"id\":\"manga:".spec_bytes() + escaped(path) + "\",\"title\":\"".spec_bytes() + escaped(
        or_else(title, path),
    ) + "\",\"alternateTitles\":[],\"description\":\"".spec_bytes() + escaped(or_else(desc, Seq::empty()))
        + "\",\"cover\":{\"kind\":\"url\",\"url\":\"".spec_bytes() + escaped(or_else(cover, Seq::empty()))
        + "\"},\"authors\":[".spec_bytes() + quoted_or_empty(author)
}

/// The manga payload after its author: status, tags and link.
pub open spec fn detail_rest(html: Seq<u8>, url: Seq<u8>, genre: Option<Seq<u8>>) -> Seq<u8> {
    "],\"artists\":[],\"status\":\"".spec_bytes() + status_word(html)
        + "\",\"contentRating\":\"safe\",\"language\":\"zh\",\"tags\":[".spec_bytes() + genre_tag(genre)
        + "],\"links\":[{\"kind\":\"source\",\"url\":\"".spec_bytes() + escaped(url) + "\"}]}}".spec_bytes()
}

fn or_empty<'a>(v: Option<&'a [u8]>) -> (r: &'a [u8])
    ensures
        r@ == or_else(opt_view(v), Seq::empty()),
{
    match v {
        Some(s) => s,
        None => {
            proof {
                reveal_strlit("");
            }
            "".as_bytes()
        },
    }
}

/// Writes the manga payload of the manga at `path` (its page `html` at
/// `url`); its length, or `None` when it does not fit.
#[verifier::spinoff_prover]
#[verifier::rlimit(40)]
pub fn detail_payload(
    html: &[u8],
    path: &[u8],
    url: &[u8],
    title: Option<&[u8]>,
    cover: Option<&[u8]>,
    author: &[u8],
    desc: Option<&[u8]>,
    genre: Option<&[u8]>,
    payload: &mut [u8],
) -> (r: Option<usize>)
    ensures
        final(payload)@.len() == old(payload)@.len(),
        match r {
            Some(n) => n == detail_json(html@, path@, url@, opt_view(title), opt_view(cover), author@, opt_view(desc), opt_view(genre)).len()
                && final(payload)@.take(n as int) == detail_json(html@, path@, url@, opt_view(title), opt_view(cover), author@, opt_view(desc), opt_view(genre)),
            None => detail_json(html@, path@, url@, opt_view(title), opt_view(cover), author@, opt_view(desc), opt_view(genre)).len()
                > old(payload)@.len(),
        },
{
    proof {
        reveal_strlit("");
        reveal_strlit("\"");
    }
    let t = match title {
        Some(v) => v,
        None => path,
    };
    let qa: &str = if author.len() > 0 { "\"" } else { "" };
    let qg: &str = if genre.is_some() { "\"" } else { "" };
    let g = or_empty(genre);
    let word = status_text(html);
    let a = [
        Piece::Text("{\"manga\":{\"id\":\"manga:"),
        Piece::Escaped(path),
        Piece::Text("\",\"title\":\""),
        Piece::Escaped(t),
        Piece::Text("\",\"alternateTitles\":[],\"description\":\""),
        Piece::Escaped(or_empty(desc)),
        Piece::Text("\",\"cover\":{\"kind\":\"url\",\"url\":\""),
        Piece::Escaped(or_empty(cover)),
        Piece::Text("\"},\"authors\":["),
        Piece::Text(qa),
        Piece::Escaped(author),
        Piece::Text(qa),
    ];
    let z = [
        Piece::Text("],\"artists\":[],\"status\":\""),
        Piece::Text(word),
        Piece::Text("\",\"contentRating\":\"safe\",\"language\":\"zh\",\"tags\":["),
        Piece::Text(qg),
        Piece::Escaped(g),
        Piece::Text(qg),
        Piece::Text("],\"links\":[{\"kind\":\"source\",\"url\":\""),
        Piece::Escaped(url),
        Piece::Text("\"}]}}"),
    ];
    proof {
        let ghost e: Seq<u8> = Seq::empty();
        assert(escaped(e) =~= e) by {
            reveal_with_fuel(crate::json_utils::per_byte, 1);
        }
        assert(qa.spec_bytes() + escaped(author@) + qa.spec_bytes() =~= quoted_or_empty(author@));
        assert(qg.spec_bytes() + escaped(g@) + qg.spec_bytes() =~= genre_tag(opt_view(genre)));
        assert(pieces_bytes(a@) =~= detail_head(path@, opt_view(title), opt_view(cover), author@, opt_view(desc))) by {
            reveal_with_fuel(pieces_bytes, 13);
        }
        assert(pieces_bytes(z@) =~= detail_rest(html@, url@, opt_view(genre))) by {
            reveal_with_fuel(pieces_bytes, 10);
        }
    }
    let mut c: usize = 0;
    if !put_pieces_then(payload, &mut c, &a, &z) {
        return None;
    }
    Some(c)
}

/// Whether an image is one of the comic's pages (served from the site's
/// image host).
pub fn is_comic_image(url: &[u8]) -> (r: bool)
    ensures
        r == (find(url@, "manhua.iqiyipic.com".spec_bytes()) is Some || find(url@, "iqiyipic.com".spec_bytes()) is Some),
{
    contains_bytes(url, "manhua.iqiyipic.com".as_bytes()) || contains_bytes(url, "iqiyipic.com".as_bytes())
}


/// The URL of list page `page`: a search for `query`, or the whole
/// catalogue.
pub open spec fn list_url_of(query: Option<Seq<u8>>, page: nat) -> Seq<u8> {
    match query {
        Some(q) => BASE_URL.spec_bytes() + "/manhua/search-keyword=".spec_bytes() + crate::json_utils::url_encoded(q)
            + "_".spec_bytes() + crate::json_utils::decimal(page),
        None => BASE_URL.spec_bytes() + "/manhua/category/%E5%85%A8%E9%83%A8_-1_-1_9_".spec_bytes()
            + crate::json_utils::decimal(page) + "/".spec_bytes(),
    }
}

/// Writes the URL of list page `page` into `out`; its length, or `None`
/// when it does not fit.
pub fn list_url(query: Option<&[u8]>, page: usize, out: &mut [u8]) -> (r: Option<usize>)
    ensures
        final(out)@.len() == old(out)@.len(),
        match r {
            Some(n) => n == list_url_of(opt_view(query), page as nat).len() && final(out)@.take(n as int)
                == list_url_of(opt_view(query), page as nat),
            None => list_url_of(opt_view(query), page as nat).len() > old(out)@.len(),
        },
{
    let ps = match query {
        Some(q) => [Piece::Text(BASE_URL), Piece::Text("/manhua/search-keyword="), Piece::UrlEncoded(q), Piece::Text("_"), Piece::Number(page)],
        None => [Piece::Text(BASE_URL), Piece::Text("/manhua/category/%E5%85%A8%E9%83%A8_-1_-1_9_"), Piece::Number(page), Piece::Text("/"), Piece::Raw("".as_bytes())],
    };
    proof {
        reveal_strlit("");
        reveal_with_fuel(pieces_bytes, 6);
        assert(pieces_bytes(ps@) =~= list_url_of(opt_view(query), page as nat));
    }
    let mut c: usize = 0;
    if !crate::pieces::put_pieces(out, &mut c, &ps) {
        return None;
    }
    Some(c)
}

} // verus!
