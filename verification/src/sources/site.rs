//! Scans and writers several HTML sources share: the path of a link, a
//! labelled field's value, absolute URLs and the manga card they list.
use vstd::prelude::*;
use vstd::slice::slice_subrange;
use vstd::string::StringSliceAdditionalSpecFns;
use crate::json_utils::{appended, escaped, find, find_subslice, put_str};
use crate::pieces::{item_unit, item_units, pieces_bytes, pieces_units, put_item, put_pieces, Piece};
use crate::units::{byte_units, wrote_units};
use crate::json_utils::escape_fn;
use crate::sources::bh3::{has_prefix, starts_with};
use crate::sources::text::trimmed;

verus! {

/// Number of `/` in `s`.
pub open spec fn slashes(s: Seq<u8>) -> nat
    decreases s.len(),
{
    if s.len() == 0 {
        0
    } else {
        slashes(s.drop_last()) + if s.last() == 47 {
            1nat
        } else {
            0
        }
    }
}

/// The path of a link: the link itself when it starts with `/`, else what
/// follows the scheme and host (from the third `/`).
pub open spec fn path_of(href: Seq<u8>) -> Option<Seq<u8>> {
    if href.len() == 0 {
        None
    } else if href[0] == 47 {
        Some(href)
    } else if exists|i: int| 0 <= i < href.len() && href[i] == 47 && slashes(href.take(i + 1)) == 3 {
        let i = choose|i: int| 0 <= i < href.len() && href[i] == 47 && slashes(href.take(i + 1)) == 3;
        Some(href.skip(i))
    } else {
        None
    }
}

proof fn lemma_slashes_step(s: Seq<u8>, i: int)
    requires
        0 <= i < s.len(),
    ensures
        slashes(s.take(i + 1)) == slashes(s.take(i)) + if s[i] == 47 {
            1nat
        } else {
            0
        },
{
    assert(s.take(i + 1).drop_last() =~= s.take(i));
}

proof fn lemma_slashes_mono(s: Seq<u8>, i: int, j: int)
    requires
        0 <= i <= j <= s.len(),
    ensures
        slashes(s.take(i)) <= slashes(s.take(j)),
    decreases j - i,
{
    if i < j {
        lemma_slashes_mono(s, i, j - 1);
        lemma_slashes_step(s, j - 1);
    }
}

pub fn path_from_href(href: &[u8]) -> (r: Option<&[u8]>)
    ensures
        match r {
            Some(v) => path_of(href@) == Some(v@),
            None => path_of(href@) is None,
        },
{
    if href.len() == 0 {
        return None;
    }
    if href[0] == 47 {
        return Some(href);
    }
    let mut count: u8 = 0;
    let mut i: usize = 0;
    assert(href@.take(0) =~= Seq::<u8>::empty());
    while i < href.len()
        invariant
            0 <= i <= href@.len(),
            href@.len() > 0,
            href@[0] != 47,
            count == slashes(href@.take(i as int)),
            count < 3,
        decreases href@.len() - i,
    {
        proof {
            lemma_slashes_step(href@, i as int);
        }
        if href[i] == 47 {
            count = count + 1;
            if count == 3 {
                proof {
                    let w = choose|k: int| 0 <= k < href@.len() && href@[k] == 47 && slashes(href@.take(k + 1)) == 3;
                    if w != i {
                        if w < i {
                            lemma_slashes_mono(href@, w + 1, i as int);
                        } else {
                            lemma_slashes_mono(href@, i + 1, w as int);
                            lemma_slashes_step(href@, w);
                        }
                    }
                }
                return Some(slice_subrange(href, i, href.len()));
            }
        }
        i = i + 1;
    }
    proof {
        assert(href@.take(i as int) =~= href@);
        assert forall|k: int| 0 <= k < href@.len() && href@[k] == 47 implies slashes(href@.take(k + 1)) != 3 by {
            lemma_slashes_mono(href@, k + 1, href@.len() as int);
        }
    }
    None
}

/// `bytes` without `prefix` and trimmed, when it starts with it.
pub open spec fn stripped_of(bytes: Seq<u8>, prefix: Seq<u8>) -> Seq<u8> {
    if has_prefix(bytes, prefix) {
        trimmed(bytes.skip(prefix.len() as int))
    } else {
        bytes
    }
}

pub fn strip_prefix<'a>(bytes: &'a [u8], prefix: &[u8]) -> (r: &'a [u8])
    ensures
        r@ == stripped_of(bytes@, prefix@),
{
    if starts_with(bytes, prefix) {
        let rest = slice_subrange(bytes, prefix.len(), bytes.len());
        assert(rest@ =~= bytes@.skip(prefix@.len() as int));
        crate::sources::dm5::trim_ascii(rest)
    } else {
        bytes
    }
}

/// A URL as the payloads carry it, JSON-escaped: `//host` gets `scheme`
/// in front, `/path` the site `base`.
pub open spec fn json_url_text(url: Seq<u8>, scheme: Seq<u8>, base: Seq<u8>) -> Seq<u8> {
    if has_prefix(url, "http://".spec_bytes()) || has_prefix(url, "https://".spec_bytes()) {
        escaped(url)
    } else if has_prefix(url, "//".spec_bytes()) {
        scheme + escaped(url)
    } else if has_prefix(url, "/".spec_bytes()) {
        base + escaped(url)
    } else {
        escaped(url)
    }
}

pub fn write_json_url(dst: &mut [u8], c: &mut usize, url: &[u8], scheme: &str, base: &str) -> (ok: bool)
    requires
        *old(c) <= old(dst)@.len(),
    ensures
        appended(
            old(dst)@,
            *old(c) as int,
            json_url_text(url@, scheme.spec_bytes(), base.spec_bytes()),
            final(dst)@,
            *final(c) as int,
            ok,
        ),
        wrote_units(
            old(dst)@,
            *old(c) as int,
            seq![url_lead(url@, scheme.spec_bytes(), base.spec_bytes())] + byte_units(url@, escape_fn()),
            final(dst)@,
            *final(c) as int,
            ok,
        ),
        final(dst)@.len() == old(dst)@.len(),
        *final(c) <= final(dst)@.len(),
{
    let lead: &str = if starts_with(url, "http://".as_bytes()) || starts_with(url, "https://".as_bytes()) {
        ""
    } else if starts_with(url, "//".as_bytes()) {
        scheme
    } else if starts_with(url, "/".as_bytes()) {
        base
    } else {
        ""
    };
    let ps = [Piece::Text(lead), Piece::Escaped(url)];
    proof {
        reveal_strlit("");
        assert(lead.spec_bytes() == url_lead(url@, scheme.spec_bytes(), base.spec_bytes()));
        reveal_with_fuel(pieces_bytes, 3);
        assert(pieces_bytes(ps@) =~= json_url_text(url@, scheme.spec_bytes(), base.spec_bytes()));
        reveal_with_fuel(pieces_units, 3);
        assert(pieces_units(ps@) =~= seq![url_lead(url@, scheme.spec_bytes(), base.spec_bytes())] + byte_units(url@, escape_fn()));
    }
    put_pieces(dst, c, &ps)
}

/// A manga card of a listing, tagged with its source.
pub open spec fn manga_item_json(id: Seq<u8>, title: Seq<u8>, cover: Seq<u8>, scheme: Seq<u8>, base: Seq<u8>, tail: Seq<u8>) -> Seq<u8> {
    "{\"id\":\"".spec_bytes() + escaped(id) + "\",\"title\":\"".spec_bytes() + escaped(title)
        + "\",\"cover\":{\"kind\":\"url\",\"url\":\"".spec_bytes() + json_url_text(cover, scheme, base) + tail
}

/// What goes before a cover URL to make it whole: the scheme before a
/// `//` URL, the site before a rooted one, nothing otherwise.
pub open spec fn url_lead(url: Seq<u8>, scheme: Seq<u8>, base: Seq<u8>) -> Seq<u8> {
    if has_prefix(url, "http://".spec_bytes()) || has_prefix(url, "https://".spec_bytes()) {
        Seq::empty()
    } else if has_prefix(url, "//".spec_bytes()) {
        scheme
    } else if has_prefix(url, "/".spec_bytes()) {
        base
    } else {
        Seq::empty()
    }
}

/// The units a manga card is written in.
pub open spec fn manga_item_units(id: Seq<u8>, title: Seq<u8>, cover: Seq<u8>, scheme: Seq<u8>, base: Seq<u8>, tail: Seq<u8>) -> Seq<Seq<u8>> {
    seq!["{\"id\":\"".spec_bytes()] + byte_units(id, escape_fn()) + seq!["\",\"title\":\"".spec_bytes()] + byte_units(
        title,
        escape_fn(),
    ) + seq!["\",\"cover\":{\"kind\":\"url\",\"url\":\"".spec_bytes(), url_lead(cover, scheme, base)] + byte_units(
        cover,
        escape_fn(),
    ) + seq![tail]
}

/// Writes a manga card, after a comma unless it is the first.
pub fn write_manga_item(
    payload: &mut [u8],
    c: &mut usize,
    id: &[u8],
    title: &[u8],
    cover: &[u8],
    written: usize,
    scheme: &str,
    base: &str,
    tail: &str,
) -> (ok: bool)
    requires
        *old(c) <= old(payload)@.len(),
    ensures
        appended(
            old(payload)@,
            *old(c) as int,
            item_unit(written > 0, manga_item_json(id@, title@, cover@, scheme.spec_bytes(), base.spec_bytes(), tail.spec_bytes())),
            final(payload)@,
            *final(c) as int,
            ok,
        ),
        wrote_units(
            old(payload)@,
            *old(c) as int,
            item_units(written > 0, manga_item_units(id@, title@, cover@, scheme.spec_bytes(), base.spec_bytes(), tail.spec_bytes())),
            final(payload)@,
            *final(c) as int,
            ok,
        ),
        final(payload)@.len() == old(payload)@.len(),
        *final(c) <= final(payload)@.len(),
{
    let is_abs = starts_with(cover, "http://".as_bytes()) || starts_with(cover, "https://".as_bytes());
    let lead: &str = if is_abs {
        ""
    } else if starts_with(cover, "//".as_bytes()) {
        scheme
    } else if starts_with(cover, "/".as_bytes()) {
        base
    } else {
        ""
    };
    let ps = [
        Piece::Text("{\"id\":\""),
        Piece::Escaped(id),
        Piece::Text("\",\"title\":\""),
        Piece::Escaped(title),
        Piece::Text("\",\"cover\":{\"kind\":\"url\",\"url\":\""),
        Piece::Text(lead),
        Piece::Escaped(cover),
        Piece::Text(tail),
    ];
    proof {
        reveal_strlit("");
        assert(lead.spec_bytes() == url_lead(cover@, scheme.spec_bytes(), base.spec_bytes()));
        reveal_with_fuel(pieces_bytes, 9);
        assert(pieces_bytes(ps@) =~= manga_item_json(id@, title@, cover@, scheme.spec_bytes(), base.spec_bytes(), tail.spec_bytes()));
        reveal_with_fuel(pieces_units, 9);
        assert(pieces_units(ps@) =~= manga_item_units(id@, title@, cover@, scheme.spec_bytes(), base.spec_bytes(), tail.spec_bytes()));
    }
    put_item(payload, c, written == 0, &ps)
}

/// The part of `id` after `prefix`, when `id` starts with it and goes on
/// past it.
pub open spec fn id_rest(id: Seq<u8>, prefix: Seq<u8>) -> Option<Seq<u8>> {
    if id.len() > prefix.len() && has_prefix(id, prefix) {
        Some(id.skip(prefix.len() as int))
    } else {
        None
    }
}

/// The part of `id` after `prefix`; `None` when `id` does not start with
/// it or holds nothing more.
pub fn rest_after<'a>(id: &'a [u8], prefix: &[u8]) -> (r: Option<&'a [u8]>)
    ensures
        match r {
            Some(v) => id_rest(id@, prefix@) == Some(v@),
            None => id_rest(id@, prefix@) is None,
        },
{
    if id.len() <= prefix.len() || !starts_with(id, prefix) {
        return None;
    }
    let v = slice_subrange(id, prefix.len(), id.len());
    assert(v@ =~= id@.skip(prefix@.len() as int));
    Some(v)
}

/// Why a chapter id names no chapter page.
#[derive(Clone, Copy, PartialEq, Eq, Structural)]
pub enum ChapterPathError {
    /// It does not start with `chapter:`.
    Unexpected,
    /// No `:` separates the manga's path from the chapter's.
    MissingSeparator,
}

/// A chapter id `chapter:<manga path>:<chapter path>`: what follows
/// `chapter:`, and the chapter's path.
pub open spec fn chapter_parts_of(id: Seq<u8>) -> Result<(Seq<u8>, Seq<u8>), ChapterPathError> {
    match id_rest(id, "chapter:".spec_bytes()) {
        None => Err(ChapterPathError::Unexpected),
        Some(rest) => match find(rest, ":".spec_bytes()) {
            None => Err(ChapterPathError::MissingSeparator),
            Some(p) => Ok((rest, rest.skip(p + 1))),
        },
    }
}

/// Splits a chapter id into what follows `chapter:` and the chapter's
/// path, or says why it cannot.
pub fn chapter_parts(chapter_id: &[u8]) -> (r: Result<(&[u8], &[u8]), ChapterPathError>)
    ensures
        match r {
            Ok((rest, path)) => chapter_parts_of(chapter_id@) == Ok::<(Seq<u8>, Seq<u8>), ChapterPathError>((rest@, path@)),
            Err(e) => chapter_parts_of(chapter_id@) == Err::<(Seq<u8>, Seq<u8>), ChapterPathError>(e),
        },
{
    let rest = match rest_after(chapter_id, "chapter:".as_bytes()) {
        Some(v) => v,
        None => {
            return Err(ChapterPathError::Unexpected);
        },
    };
    proof {
        reveal_strlit(":");
        broadcast use vstd::string::is_ascii_spec_bytes;
        assert(vstd::string::is_ascii(":"));
    }
    let p = match find_subslice(rest, ":".as_bytes()) {
        Some(p) => p,
        None => {
            return Err(ChapterPathError::MissingSeparator);
        },
    };
    let rl: usize = rest.len();
    assert(p + 1 <= rl);
    let path = slice_subrange(rest, p + 1, rest.len());
    assert(path@ =~= rest@.skip(p + 1));
    Ok((rest, path))
}

/// A listed manga: the one at `path`, titled `title`, its cover at
/// `cover`, then the source's `tail`.
pub open spec fn path_card_json(path: Seq<u8>, title: Seq<u8>, cover: Seq<u8>, tail: Seq<u8>) -> Seq<u8> {
    "{\"id\":\"manga:".spec_bytes() + escaped(path) + "\",\"title\":\"".spec_bytes() + escaped(title)
        + "\",\"cover\":{\"kind\":\"url\",\"url\":\"".spec_bytes() + escaped(cover) + tail
}

/// The units the card of the manga at `path` is written in.
pub open spec fn path_card_units(path: Seq<u8>, title: Seq<u8>, cover: Seq<u8>, tail: Seq<u8>) -> Seq<Seq<u8>> {
    seq!["{\"id\":\"manga:".spec_bytes()] + byte_units(path, escape_fn()) + seq!["\",\"title\":\"".spec_bytes()]
        + byte_units(title, escape_fn()) + seq!["\",\"cover\":{\"kind\":\"url\",\"url\":\"".spec_bytes()]
        + byte_units(cover, escape_fn()) + seq![tail]
}

/// Writes the card of the manga at `path`, after a comma unless it is the
/// first.
pub fn write_path_card(
    payload: &mut [u8],
    c: &mut usize,
    first: bool,
    path: &[u8],
    title: &[u8],
    cover: &[u8],
    tail: &str,
) -> (ok: bool)
    requires
        *old(c) <= old(payload)@.len(),
    ensures
        appended(old(payload)@, *old(c) as int, item_unit(!first, path_card_json(path@, title@, cover@, tail.spec_bytes())), final(payload)@, *final(c) as int, ok),
        wrote_units(
            old(payload)@,
            *old(c) as int,
            item_units(!first, path_card_units(path@, title@, cover@, tail.spec_bytes())),
            final(payload)@,
            *final(c) as int,
            ok,
        ),
        final(payload)@.len() == old(payload)@.len(),
        *final(c) <= final(payload)@.len(),
{
    let ps = [
        Piece::Text("{\"id\":\"manga:"),
        Piece::Escaped(path),
        Piece::Text("\",\"title\":\""),
        Piece::Escaped(title),
        Piece::Text("\",\"cover\":{\"kind\":\"url\",\"url\":\""),
        Piece::Escaped(cover),
        Piece::Text(tail),
    ];
    proof {
        reveal_with_fuel(pieces_bytes, 8);
        assert(pieces_bytes(ps@) =~= path_card_json(path@, title@, cover@, tail.spec_bytes()));
        reveal_with_fuel(pieces_units, 8);
        assert(pieces_units(ps@) =~= path_card_units(path@, title@, cover@, tail.spec_bytes()));
    }
    put_item(payload, c, first, &ps)
}

/// The end of a list: a next page when the site links one and the list
/// holds an item.
pub open spec fn list_footer(more: bool) -> Seq<u8> {
    if more {
        "],\"page\":{\"nextCursor\":\"next\",\"hasMore\":true}}".spec_bytes()
    } else {
        "],\"page\":{\"nextCursor\":null,\"hasMore\":false}}".spec_bytes()
    }
}

/// Writes the end of a list of `written` items from a page that links a
/// next page or not (`more`).
pub fn write_list_footer(payload: &mut [u8], c: &mut usize, more: bool, written: usize) -> (ok: bool)
    requires
        *old(c) <= old(payload)@.len(),
    ensures
        appended(old(payload)@, *old(c) as int, list_footer(more && written > 0), final(payload)@, *final(c) as int, ok),
        final(payload)@.len() == old(payload)@.len(),
        *final(c) <= final(payload)@.len(),
{
    proof {
        reveal_strlit("],\"page\":{\"nextCursor\":\"next\",\"hasMore\":true}}");
        reveal_strlit("],\"page\":{\"nextCursor\":null,\"hasMore\":false}}");
    }
    if more && written > 0 {
        put_str(payload, c, "],\"page\":{\"nextCursor\":\"next\",\"hasMore\":true}}")
    } else {
        put_str(payload, c, "],\"page\":{\"nextCursor\":null,\"hasMore\":false}}")
    }
}

pub const PATH_CHAPTER_TAIL: &'static str =
    "\",\"chapterNumber\":null,\"volumeNumber\":null,\"language\":\"zh\",\"publishedAt\":null,\"updatedAt\":null,\"pageCount\":null}";

/// A chapter of the manga at `path`: the link `href` (its path, when it
/// has one) named `name`.
pub open spec fn path_chapter_json(path: Seq<u8>, href: Seq<u8>, name: Seq<u8>) -> Seq<u8> {
    let cp = match path_of(href) {
        Some(p) => p,
        None => href,
    };
    "{\"id\":\"chapter:".spec_bytes() + escaped(path) + ":".spec_bytes() + escaped(cp)
        + "\",\"mangaId\":\"manga:".spec_bytes() + escaped(path) + "\",\"title\":\"".spec_bytes() + escaped(name)
        + PATH_CHAPTER_TAIL.spec_bytes()
}

/// The units the chapter for the link `href` is written in.
pub open spec fn path_chapter_units(path: Seq<u8>, href: Seq<u8>, name: Seq<u8>) -> Seq<Seq<u8>> {
    let cp = match path_of(href) {
        Some(p) => p,
        None => href,
    };
    seq!["{\"id\":\"chapter:".spec_bytes()] + byte_units(path, escape_fn()) + seq![":".spec_bytes()] + byte_units(
        cp,
        escape_fn(),
    ) + seq!["\",\"mangaId\":\"manga:".spec_bytes()] + byte_units(path, escape_fn()) + seq![
        "\",\"title\":\"".spec_bytes(),
    ] + byte_units(name, escape_fn()) + seq![PATH_CHAPTER_TAIL.spec_bytes()]
}

/// Writes the chapter for the link `href` named `name` of the manga at
/// `path`, after a comma unless it is the first.
pub fn write_path_chapter(payload: &mut [u8], c: &mut usize, first: bool, path: &[u8], href: &[u8], name: &[u8]) -> (ok: bool)
    requires
        *old(c) <= old(payload)@.len(),
    ensures
        appended(old(payload)@, *old(c) as int, item_unit(!first, path_chapter_json(path@, href@, name@)), final(payload)@, *final(c) as int, ok),
        wrote_units(
            old(payload)@,
            *old(c) as int,
            item_units(!first, path_chapter_units(path@, href@, name@)),
            final(payload)@,
            *final(c) as int,
            ok,
        ),
        final(payload)@.len() == old(payload)@.len(),
        *final(c) <= final(payload)@.len(),
{
    let cp = match path_from_href(href) {
        Some(p) => p,
        None => href,
    };
    let ps = [
        Piece::Text("{\"id\":\"chapter:"),
        Piece::Escaped(path),
        Piece::Text(":"),
        Piece::Escaped(cp),
        Piece::Text("\",\"mangaId\":\"manga:"),
        Piece::Escaped(path),
        Piece::Text("\",\"title\":\""),
        Piece::Escaped(name),
        Piece::Text(PATH_CHAPTER_TAIL),
    ];
    proof {
        reveal_with_fuel(pieces_bytes, 10);
        assert(pieces_bytes(ps@) =~= path_chapter_json(path@, href@, name@));
        reveal_with_fuel(pieces_units, 10);
        assert(pieces_units(ps@) =~= path_chapter_units(path@, href@, name@));
    }
    put_item(payload, c, first, &ps)
}

/// The page a request asks for: its `page` when it is a number, else 1.
pub open spec fn page_of(req: Seq<u8>) -> nat {
    match crate::json_utils::json_number_value(req, "page".spec_bytes()) {
        Some(n) => match crate::sources::text::parse_decimal(n) {
            Some(v) => v,
            None => 1,
        },
        None => 1,
    }
}

pub fn request_page(req: &[u8]) -> (r: usize)
    requires
        crate::json_utils::json_number_value(req@, "page".spec_bytes()) matches Some(n) ==> crate::sources::text::digits_fit(
            n,
            usize::MAX as nat,
        ),
    ensures
        r == page_of(req@),
{
    match crate::json_utils::extract_json_number(req, "page".as_bytes()) {
        Some(b) => match crate::sources::text::parse_decimal_exec(b) {
            Some(v) => v,
            None => 1,
        },
        None => 1,
    }
}

/// The opening of the page list of chapter `id`.
pub open spec fn pages_head(id: Seq<u8>) -> Seq<u8> {
    "{\"chapterId\":\"".spec_bytes() + escaped(id) + "\",\"pages\":[".spec_bytes()
}

/// Writes the opening of the page list of chapter `id`.
pub fn write_pages_head(payload: &mut [u8], c: &mut usize, id: &[u8]) -> (ok: bool)
    requires
        *old(c) <= old(payload)@.len(),
    ensures
        appended(old(payload)@, *old(c) as int, pages_head(id@), final(payload)@, *final(c) as int, ok),
        final(payload)@.len() == old(payload)@.len(),
        *final(c) <= final(payload)@.len(),
{
    let ps = [Piece::Text("{\"chapterId\":\""), Piece::Escaped(id), Piece::Text("\",\"pages\":[")];
    proof {
        reveal_with_fuel(pieces_bytes, 4);
        assert(pieces_bytes(ps@) =~= pages_head(id@));
    }
    put_pieces(payload, c, &ps)
}

pub const ID_CHAPTER_TAIL: &'static str =
    "\",\"chapterNumber\":null,\"volumeNumber\":null,\"language\":\"zh\",\"publishedAt\":null,\"updatedAt\":null,\"pageCount\":null}";

/// The chapter at `path` (its id) of manga `manga_id`, named `name`.
pub open spec fn id_chapter_json(path: Seq<u8>, manga_id: Seq<u8>, name: Seq<u8>) -> Seq<u8> {
    "{\"id\":\"".spec_bytes() + escaped(path) + "\",\"mangaId\":\"".spec_bytes() + escaped(manga_id)
        + "\",\"title\":\"".spec_bytes() + escaped(name) + ID_CHAPTER_TAIL.spec_bytes()
}

/// The units the chapter at `path` of manga `manga_id` is written in.
pub open spec fn id_chapter_units(path: Seq<u8>, manga_id: Seq<u8>, name: Seq<u8>) -> Seq<Seq<u8>> {
    seq!["{\"id\":\"".spec_bytes()] + byte_units(path, escape_fn()) + seq!["\",\"mangaId\":\"".spec_bytes()]
        + byte_units(manga_id, escape_fn()) + seq!["\",\"title\":\"".spec_bytes()] + byte_units(name, escape_fn())
        + seq![ID_CHAPTER_TAIL.spec_bytes()]
}

/// Writes the chapter at `path` of manga `manga_id`, after a comma unless
/// it is the first.
pub fn write_id_chapter(payload: &mut [u8], c: &mut usize, first: bool, path: &[u8], manga_id: &[u8], name: &[u8]) -> (ok: bool)
    requires
        *old(c) <= old(payload)@.len(),
    ensures
        appended(old(payload)@, *old(c) as int, item_unit(!first, id_chapter_json(path@, manga_id@, name@)), final(payload)@, *final(c) as int, ok),
        wrote_units(
            old(payload)@,
            *old(c) as int,
            item_units(!first, id_chapter_units(path@, manga_id@, name@)),
            final(payload)@,
            *final(c) as int,
            ok,
        ),
        final(payload)@.len() == old(payload)@.len(),
        *final(c) <= final(payload)@.len(),
{
    let ps = [
        Piece::Text("{\"id\":\""),
        Piece::Escaped(path),
        Piece::Text("\",\"mangaId\":\""),
        Piece::Escaped(manga_id),
        Piece::Text("\",\"title\":\""),
        Piece::Escaped(name),
        Piece::Text(ID_CHAPTER_TAIL),
    ];
    proof {
        reveal_with_fuel(pieces_bytes, 8);
        assert(pieces_bytes(ps@) =~= id_chapter_json(path@, manga_id@, name@));
        reveal_with_fuel(pieces_units, 8);
        assert(pieces_units(ps@) =~= id_chapter_units(path@, manga_id@, name@));
    }
    crate::pieces::put_item(payload, c, first, &ps)
}

} // verus!
