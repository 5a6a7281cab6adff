//! The DONGMANMANHUA source: link paths and the episode number at the end
//! of a title.
use vstd::prelude::*;
use vstd::slice::slice_subrange;
use vstd::string::StringSliceAdditionalSpecFns;
use crate::json_utils::{appended, contains_bytes, decimal, escaped, find, find_subslice, is_digit, matches_at};
use crate::pieces::{item_unit, item_units, pieces_bytes, pieces_units, put_item, put_pieces, Piece};
use crate::units::{byte_units, wrote_units};
use crate::json_utils::escape_fn;
use crate::sources::bh3::{opt_view, or_else};
use crate::sources::site::{id_rest, rest_after};

verus! {

/// The path of a URL: a protocol-relative `//host/path` or a full
/// `scheme://host/path` gives the path from the `/` after the host (`None`
/// when there is none); anything else is a path already.
pub open spec fn url_path_of(url: Seq<u8>) -> Option<Seq<u8>> {
    if url.len() >= 2 && url[0] == 47 && url[1] == 47 {
        match find(url.skip(2), "/".spec_bytes()) {
            None => None,
            Some(p) => Some(url.skip(p + 2)),
        }
    } else {
        match find(url, "://".spec_bytes()) {
            None => Some(url),
            Some(q) => match find(url.skip(q + 3), "/".spec_bytes()) {
                None => None,
                Some(p) => Some(url.skip(p + q + 3)),
            },
        }
    }
}

/// The path of a full or protocol-relative URL; a relative path is
/// returned as it is.
pub fn path_from_url(url: &[u8]) -> (r: Option<&[u8]>)
    ensures
        match r {
            Some(v) => url_path_of(url@) == Some(v@),
            None => url_path_of(url@) is None,
        },
{
    proof {
        reveal_strlit("://");
        reveal_strlit("/");
        broadcast use vstd::string::is_ascii_spec_bytes;
        assert(vstd::string::is_ascii("://"));
        assert(vstd::string::is_ascii("/"));
    }
    if url.len() >= 2 && url[0] == 47 && url[1] == 47 {
        let rest = slice_subrange(url, 2, url.len());
        assert(rest@ =~= url@.skip(2));
        let p = match find_subslice(rest, "/".as_bytes()) {
            Some(p) => p,
            None => return None,
        };
        let r = slice_subrange(url, p + 2, url.len());
        assert(r@ =~= url@.skip(p + 2));
        Some(r)
    } else {
        match find_subslice(url, "://".as_bytes()) {
            None => Some(url),
            Some(q) => {
                let rest = slice_subrange(url, q + 3, url.len());
                assert(rest@ =~= url@.skip(q + 3));
                let p = match find_subslice(rest, "/".as_bytes()) {
                    Some(p) => p,
                    None => return None,
                };
                let r = slice_subrange(url, p + q + 3, url.len());
                assert(r@ =~= url@.skip(p + q + 3));
                Some(r)
            },
        }
    }
}

/// Where the last run of digits before `e` ends (0 when there is none).
pub open spec fn digits_end(s: Seq<u8>, e: int) -> int
    decreases e,
{
    if e <= 0 {
        0
    } else if is_digit(s[e - 1]) {
        e
    } else {
        digits_end(s, e - 1)
    }
}

/// Where the run of digits that ends at `b` starts.
pub open spec fn digits_start(s: Seq<u8>, b: int) -> int
    decreases b,
{
    if b <= 0 {
        0
    } else if is_digit(s[b - 1]) {
        digits_start(s, b - 1)
    } else {
        b
    }
}

/// The last run of digits in `s`, or `None` when it has no digit.
pub open spec fn last_number_of(s: Seq<u8>) -> Option<Seq<u8>> {
    let end = digits_end(s, s.len() as int);
    if end == 0 {
        None
    } else {
        Some(s.subrange(digits_start(s, end), end))
    }
}

/// The last run of digits in `s`, such as the episode number at the end of
/// a title.
pub fn extract_number_from_end(s: &[u8]) -> (r: Option<&[u8]>)
    ensures
        match r {
            Some(v) => last_number_of(s@) == Some(v@) && v@.len() > 0 && forall|j: int|
                0 <= j < v@.len() ==> is_digit(#[trigger] v@[j]),
            None => last_number_of(s@) is None && forall|j: int| 0 <= j < s@.len() ==> !is_digit(
                #[trigger] s@[j],
            ),
        },
{
    let mut end = s.len();
    while end > 0 && !(s[end - 1] >= 48 && s[end - 1] <= 57)
        invariant
            end <= s@.len(),
            digits_end(s@, s@.len() as int) == digits_end(s@, end as int),
            forall|j: int| end <= j < s@.len() ==> !is_digit(#[trigger] s@[j]),
        decreases end,
    {
        end = end - 1;
    }
    if end == 0 {
        return None;
    }
    let mut start = end;
    while start > 0 && s[start - 1] >= 48 && s[start - 1] <= 57
        invariant
            start <= end,
            0 < end <= s@.len(),
            digits_end(s@, s@.len() as int) == end,
            digits_start(s@, end as int) == digits_start(s@, start as int),
            start < end ==> is_digit(s@[start as int]),
            forall|j: int| start <= j < end ==> is_digit(#[trigger] s@[j]),
        decreases start,
    {
        start = start - 1;
    }
    let r = slice_subrange(s, start, end);
    assert(forall|j: int| 0 <= j < r@.len() ==> r@[j] == s@[start + j]);
    r.len();
    Some(r)
}


pub const SITE_BASE: &'static str = "https://www.dongmanmanhua.cn";

/// The path of a manga: its id after `manga:`.
pub fn manga_path(manga_id: &[u8]) -> (r: Option<&[u8]>)
    ensures
        match r {
            Some(v) => id_rest(manga_id@, "manga:".spec_bytes()) == Some(v@),
            None => id_rest(manga_id@, "manga:".spec_bytes()) is None,
        },
{
    rest_after(manga_id, "manga:".as_bytes())
}

/// Why a chapter id names no episode.
#[derive(Clone, Copy, PartialEq, Eq, Structural)]
pub enum ChapterIdError {
    /// It does not start with `chapter:`.
    Unexpected,
    /// What follows does not start with `manga:`.
    Format,
    /// No `:` separates the manga from the episode.
    Malformed,
}

/// The episode path of a chapter id `chapter:manga:<path>:<episode>`.
pub open spec fn episode_of(id: Seq<u8>) -> Result<Seq<u8>, ChapterIdError> {
    match id_rest(id, "chapter:".spec_bytes()) {
        None => Err(ChapterIdError::Unexpected),
        Some(rest) => match id_rest(rest, "manga:".spec_bytes()) {
            None => Err(ChapterIdError::Format),
            Some(after) => match find(after, ":".spec_bytes()) {
                None => Err(ChapterIdError::Malformed),
                Some(p) => Ok(after.skip(p + 1)),
            },
        },
    }
}

/// The episode path named by a chapter id, or why there is none.
pub fn chapter_episode(chapter_id: &[u8]) -> (r: Result<&[u8], ChapterIdError>)
    ensures
        match r {
            Ok(v) => episode_of(chapter_id@) == Ok::<Seq<u8>, ChapterIdError>(v@),
            Err(e) => episode_of(chapter_id@) == Err::<Seq<u8>, ChapterIdError>(e),
        },
{
    let rest = match rest_after(chapter_id, "chapter:".as_bytes()) {
        Some(v) => v,
        None => {
            return Err(ChapterIdError::Unexpected);
        },
    };
    let after = match rest_after(rest, "manga:".as_bytes()) {
        Some(v) => v,
        None => {
            return Err(ChapterIdError::Format);
        },
    };
    let p = match find_subslice(after, ":".as_bytes()) {
        Some(p) => p,
        None => {
            return Err(ChapterIdError::Malformed);
        },
    };
    proof {
        reveal_strlit(":");
        broadcast use vstd::string::is_ascii_spec_bytes;
        assert(vstd::string::is_ascii(":"));
    }
    let al: usize = after.len();
    assert(p + 1 <= al);
    let v = slice_subrange(after, p + 1, after.len());
    assert(v@ =~= after@.skip(p + 1));
    Ok(v)
}

/// The status a detail page's status line gives.
pub open spec fn status_word(text: Option<Seq<u8>>) -> Seq<u8> {
    match text {
        Some(s) => if find(s, "完结".spec_bytes()) is Some {
            "completed".spec_bytes()
        } else if find(s, "更新".spec_bytes()) is Some {
            "ongoing".spec_bytes()
        } else {
            "unknown".spec_bytes()
        },
        None => "unknown".spec_bytes(),
    }
}

fn status_text(text: Option<&[u8]>) -> (r: &'static str)
    ensures
        r.spec_bytes() == status_word(opt_view(text)),
{
    match text {
        Some(s) => if contains_bytes(s, "完结".as_bytes()) {
            "completed"
        } else if contains_bytes(s, "更新".as_bytes()) {
            "ongoing"
        } else {
            "unknown"
        },
        None => "unknown",
    }
}

pub const DETAIL_TAIL: &'static str =
    "\",\"contentRating\":\"safe\",\"language\":\"zh-Hans\",\"tags\":[\"dongmanmanhua\"],\"links\":[]}}";

/// The manga payload of the manga at `path`, from what its page shows.
pub open spec fn detail_json(
    path: Seq<u8>,
    title: Option<Seq<u8>>,
    desc: Option<Seq<u8>>,
    cover: Option<Seq<u8>>,
    author: Option<Seq<u8>>,
    status: Option<Seq<u8>>,
) -> Seq<u8> {
    "{\"manga\":{\"id\":\"manga:".spec_bytes() + escaped(path) + "\",\"title\":\"".spec_bytes() + escaped(
        or_else(title, Seq::empty()),
    ) + "\",\"alternateTitles\":[],\"description\":\"".spec_bytes() + escaped(or_else(desc, Seq::empty()))
        + "\",\"cover\":{\"kind\":\"url\",\"url\":\"".spec_bytes() + escaped(or_else(cover, Seq::empty()))
        + "\"},\"authors\":[\"".spec_bytes() + escaped(or_else(author, Seq::empty()))
        + "\"],\"artists\":[],\"status\":\"".spec_bytes() + status_word(status) + DETAIL_TAIL.spec_bytes()
}

fn or_empty<'a>(v: Option<&'a [u8]>) -> (r: &'a [u8])
    ensures
        r@ == or_else(opt_view(v), Seq::empty()),
{
    match v {
        Some(s) => s,
        None => {
            proof {
                reveal_strlit("");
            }
            "".as_bytes()
        },
    }
}

/// Writes the manga payload of the manga at `path` from the title,
/// description, cover, author and status line its page shows; its
/// length, or `None` when it does not fit.
pub fn detail_payload(
    path: &[u8],
    title: Option<&[u8]>,
    desc: Option<&[u8]>,
    cover: Option<&[u8]>,
    author: Option<&[u8]>,
    status: Option<&[u8]>,
    payload: &mut [u8],
) -> (r: Option<usize>)
    ensures
        final(payload)@.len() == old(payload)@.len(),
        match r {
            Some(n) => n == detail_json(
                path@,
                opt_view(title),
                opt_view(desc),
                opt_view(cover),
                opt_view(author),
                opt_view(status),
            ).len() && final(payload)@.take(n as int) == detail_json(
                path@,
                opt_view(title),
                opt_view(desc),
                opt_view(cover),
                opt_view(author),
                opt_view(status),
            ),
            None => detail_json(
                path@,
                opt_view(title),
                opt_view(desc),
                opt_view(cover),
                opt_view(author),
                opt_view(status),
            ).len() > old(payload)@.len(),
        },
{
    let word = status_text(status);
    let ps = [
        Piece::Text("{\"manga\":{\"id\":\"manga:"),
        Piece::Escaped(path),
        Piece::Text("\",\"title\":\""),
        Piece::Escaped(or_empty(title)),
        Piece::Text("\",\"alternateTitles\":[],\"description\":\""),
        Piece::Escaped(or_empty(desc)),
        Piece::Text("\",\"cover\":{\"kind\":\"url\",\"url\":\""),
        Piece::Escaped(or_empty(cover)),
        Piece::Text("\"},\"authors\":[\""),
        Piece::Escaped(or_empty(author)),
        Piece::Text("\"],\"artists\":[],\"status\":\""),
        Piece::Text(word),
        Piece::Text(DETAIL_TAIL),
    ];
    proof {
        reveal_with_fuel(pieces_bytes, 14);
        assert(pieces_bytes(ps@) =~= detail_json(
            path@,
            opt_view(title),
            opt_view(desc),
            opt_view(cover),
            opt_view(author),
            opt_view(status),
        ));
    }
    let mut c: usize = 0;
    if !put_pieces(payload, &mut c, &ps) {
        return None;
    }
    Some(c)
}

/// The episode slug of a chapter link: its path (the link itself when it
/// names no path) after the first `/`, or all of it when there is none.
pub open spec fn slug_of(href: Seq<u8>) -> Seq<u8> {
    let path = match url_path_of(href) {
        Some(p) => p,
        None => href,
    };
    match find(path, "/".spec_bytes()) {
        Some(i) => path.skip(i + 1),
        None => path,
    }
}

/// A chapter entry of manga `id`, for the link `href` titled `name`.
pub open spec fn chapter_json(id: Seq<u8>, href: Seq<u8>, name: Seq<u8>) -> Seq<u8> {
    let slug = slug_of(href);
    let num = match last_number_of(slug) {
        Some(n) => n,
        None => "1".spec_bytes(),
    };
    "{\"id\":\"chapter:".spec_bytes() + escaped(id) + ":".spec_bytes() + escaped(slug)
        + "\",\"mangaId\":\"".spec_bytes() + escaped(id) + "\",\"title\":\"".spec_bytes() + escaped(name)
        + "\",\"chapterNumber\":\"".spec_bytes() + escaped(num) + CHAPTER_TAIL.spec_bytes()
}

pub const CHAPTER_TAIL: &'static str =
    "\",\"volumeNumber\":null,\"language\":\"zh-Hans\",\"publishedAt\":null,\"updatedAt\":null,\"pageCount\":0}";

/// The episode slug of a chapter link.
pub fn chapter_slug(href: &[u8]) -> (r: &[u8])
    ensures
        r@ == slug_of(href@),
{
    let path = match path_from_url(href) {
        Some(p) => p,
        None => href,
    };
    match find_subslice(path, "/".as_bytes()) {
        Some(i) => {
            proof {
                reveal_strlit("/");
                broadcast use vstd::string::is_ascii_spec_bytes;
                assert(vstd::string::is_ascii("/"));
            }
            let pl: usize = path.len();
            assert(i + 1 <= pl);
            let r = slice_subrange(path, i + 1, path.len());
            assert(r@ =~= path@.skip(i + 1));
            r
        },
        None => path,
    }
}

/// The units the chapter entry for the link `href` is written in.
pub open spec fn chapter_units(id: Seq<u8>, href: Seq<u8>, name: Seq<u8>) -> Seq<Seq<u8>> {
    let slug = slug_of(href);
    let num = match last_number_of(slug) {
        Some(n) => n,
        None => "1".spec_bytes(),
    };
    seq!["{\"id\":\"chapter:".spec_bytes()] + byte_units(id, escape_fn()) + seq![":".spec_bytes()] + byte_units(
        slug,
        escape_fn(),
    ) + seq!["\",\"mangaId\":\"".spec_bytes()] + byte_units(id, escape_fn()) + seq!["\",\"title\":\"".spec_bytes()]
        + byte_units(name, escape_fn()) + seq!["\",\"chapterNumber\":\"".spec_bytes()] + byte_units(num, escape_fn())
        + seq![CHAPTER_TAIL.spec_bytes()]
}

/// Writes the chapter entry for the link `href` titled `name` of manga
/// `id`, after a comma unless it is the first.
pub fn write_chapter(payload: &mut [u8], c: &mut usize, first: bool, id: &[u8], href: &[u8], name: &[u8]) -> (ok: bool)
    requires
        *old(c) <= old(payload)@.len(),
    ensures
        appended(old(payload)@, *old(c) as int, item_unit(!first, chapter_json(id@, href@, name@)), final(payload)@, *final(c) as int, ok),
        wrote_units(
            old(payload)@,
            *old(c) as int,
            item_units(!first, chapter_units(id@, href@, name@)),
            final(payload)@,
            *final(c) as int,
            ok,
        ),
        final(payload)@.len() == old(payload)@.len(),
        *final(c) <= final(payload)@.len(),
{
    let slug = chapter_slug(href);
    let num = match extract_number_from_end(slug) {
        Some(n) => n,
        None => {
            proof {
                reveal_strlit("1");
            }
            "1".as_bytes()
        },
    };
    let ps = [
        Piece::Text("{\"id\":\"chapter:"),
        Piece::Escaped(id),
        Piece::Text(":"),
        Piece::Escaped(slug),
        Piece::Text("\",\"mangaId\":\""),
        Piece::Escaped(id),
        Piece::Text("\",\"title\":\""),
        Piece::Escaped(name),
        Piece::Text("\",\"chapterNumber\":\""),
        Piece::Escaped(num),
        Piece::Text(CHAPTER_TAIL),
    ];
    proof {
        reveal_with_fuel(pieces_bytes, 12);
        assert(pieces_bytes(ps@) =~= chapter_json(id@, href@, name@));
        reveal_with_fuel(pieces_units, 12);
        assert(pieces_units(ps@) =~= chapter_units(id@, href@, name@));
    }
    put_item(payload, c, first, &ps)
}

/// A page entry: image `i` at `url`.
pub open spec fn page_json(i: nat, url: Seq<u8>) -> Seq<u8> {
    "{\"id\":\"page:".spec_bytes() + decimal(i) + "\",\"index\":".spec_bytes() + decimal(i)
        + ",\"image\":{\"kind\":\"url\",\"url\":\"".spec_bytes() + escaped(url) + "\"}}".spec_bytes()
}

/// The units the entry of image `i` is written in.
pub open spec fn page_units(i: nat, url: Seq<u8>) -> Seq<Seq<u8>> {
    seq![
        "{\"id\":\"page:".spec_bytes(),
        decimal(i),
        "\",\"index\":".spec_bytes(),
        decimal(i),
        ",\"image\":{\"kind\":\"url\",\"url\":\"".spec_bytes(),
    ] + byte_units(url, escape_fn()) + seq!["\"}}".spec_bytes()]
}

/// Writes the entry of image `i` at `url`, after a comma unless `i` is 0.
pub fn write_page(payload: &mut [u8], c: &mut usize, i: usize, url: &[u8]) -> (ok: bool)
    requires
        *old(c) <= old(payload)@.len(),
    ensures
        appended(old(payload)@, *old(c) as int, item_unit(i > 0, page_json(i as nat, url@)), final(payload)@, *final(c) as int, ok),
        wrote_units(old(payload)@, *old(c) as int, item_units(i > 0, page_units(i as nat, url@)), final(payload)@, *final(c) as int, ok),
        final(payload)@.len() == old(payload)@.len(),
        *final(c) <= final(payload)@.len(),
{
    let ps = [
        Piece::Text("{\"id\":\"page:"),
        Piece::Number(i),
        Piece::Text("\",\"index\":"),
        Piece::Number(i),
        Piece::Text(",\"image\":{\"kind\":\"url\",\"url\":\""),
        Piece::Escaped(url),
        Piece::Text("\"}}"),
    ];
    proof {
        reveal_with_fuel(pieces_bytes, 8);
        assert(pieces_bytes(ps@) =~= page_json(i as nat, url@));
        reveal_with_fuel(pieces_units, 8);
        assert(pieces_units(ps@) =~= page_units(i as nat, url@));
    }
    put_item(payload, c, i == 0, &ps)
}

pub const CARD_TAIL: &'static str =
    "\"},\"authors\":[],\"status\":\"unknown\",\"contentRating\":\"safe\",\"description\":\"\",\"sourceTags\":[\"dongmanmanhua\"]}";

/// A daily-schedule card for the link `href` titled `title`.
pub open spec fn card_json(href: Seq<u8>, title: Seq<u8>, cover: Option<Seq<u8>>) -> Seq<u8> {
    let path = match url_path_of(href) {
        Some(p) => p,
        None => href,
    };
    "{\"id\":\"manga:".spec_bytes() + escaped(path) + "\",\"title\":\"".spec_bytes() + escaped(title)
        + "\",\"cover\":{\"kind\":\"url\",\"url\":\"".spec_bytes() + escaped(or_else(cover, Seq::empty()))
        + CARD_TAIL.spec_bytes()
}

/// The units the card for the link `href` is written in.
pub open spec fn card_units(href: Seq<u8>, title: Seq<u8>, cover: Option<Seq<u8>>) -> Seq<Seq<u8>> {
    let path = match url_path_of(href) {
        Some(p) => p,
        None => href,
    };
    seq!["{\"id\":\"manga:".spec_bytes()] + byte_units(path, escape_fn()) + seq!["\",\"title\":\"".spec_bytes()]
        + byte_units(title, escape_fn()) + seq!["\",\"cover\":{\"kind\":\"url\",\"url\":\"".spec_bytes()]
        + byte_units(or_else(cover, Seq::empty()), escape_fn()) + seq![CARD_TAIL.spec_bytes()]
}

/// Writes the card for the link `href` titled `title`, after a comma
/// unless it is the first.
pub fn write_card(
    payload: &mut [u8],
    c: &mut usize,
    first: bool,
    href: &[u8],
    title: &[u8],
    cover: Option<&[u8]>,
) -> (ok: bool)
    requires
        *old(c) <= old(payload)@.len(),
    ensures
        appended(old(payload)@, *old(c) as int, item_unit(!first, card_json(href@, title@, opt_view(cover))), final(payload)@, *final(c) as int, ok),
        wrote_units(
            old(payload)@,
            *old(c) as int,
            item_units(!first, card_units(href@, title@, opt_view(cover))),
            final(payload)@,
            *final(c) as int,
            ok,
        ),
        final(payload)@.len() == old(payload)@.len(),
        *final(c) <= final(payload)@.len(),
{
    let path = match path_from_url(href) {
        Some(p) => p,
        None => href,
    };
    let ps = [
        Piece::Text("{\"id\":\"manga:"),
        Piece::Escaped(path),
        Piece::Text("\",\"title\":\""),
        Piece::Escaped(title),
        Piece::Text("\",\"cover\":{\"kind\":\"url\",\"url\":\""),
        Piece::Escaped(or_empty(cover)),
        Piece::Text(CARD_TAIL),
    ];
    proof {
        reveal_with_fuel(pieces_bytes, 8);
        assert(pieces_bytes(ps@) =~= card_json(href@, title@, opt_view(cover)));
        reveal_with_fuel(pieces_units, 8);
        assert(pieces_units(ps@) =~= card_units(href@, title@, opt_view(cover)));
    }
    put_item(payload, c, first, &ps)
}

/// Whether a manga-list request asks for the daily schedule, the one
/// listing the site has.
pub fn is_daily_schedule(listing_id: Option<&[u8]>) -> (r: bool)
    ensures
        r == (opt_view(listing_id) == Some("dailySchedule".spec_bytes())),
{
    match listing_id {
        Some(v) => crate::json_utils::same_bytes(v, "dailySchedule".as_bytes()),
        None => false,
    }
}


/// The one listing the site offers.
pub open spec fn listings_json() -> Seq<u8> {
    "{\"listings\":[{\"id\":\"dailySchedule\",\"name\":\"".spec_bytes() + escaped("每日连载".spec_bytes())
        + "\",\"description\":\"".spec_bytes() + escaped("咚漫每日连载漫画".spec_bytes()) + "\"}]}".spec_bytes()
}

/// Writes the listings payload; its length, or `None` when it does not
/// fit.
pub fn listings_payload(payload: &mut [u8]) -> (r: Option<usize>)
    ensures
        final(payload)@.len() == old(payload)@.len(),
        match r {
            Some(n) => n == listings_json().len() && final(payload)@.take(n as int) == listings_json(),
            None => listings_json().len() > old(payload)@.len(),
        },
{
    let ps = [
        Piece::Text("{\"listings\":[{\"id\":\"dailySchedule\",\"name\":\""),
        Piece::Escaped("每日连载".as_bytes()),
        Piece::Text("\",\"description\":\""),
        Piece::Escaped("咚漫每日连载漫画".as_bytes()),
        Piece::Text("\"}]}"),
    ];
    proof {
        reveal_with_fuel(pieces_bytes, 6);
        assert(pieces_bytes(ps@) =~= listings_json());
    }
    let mut c: usize = 0;
    if !put_pieces(payload, &mut c, &ps) {
        return None;
    }
    Some(c)
}

} // verus!
