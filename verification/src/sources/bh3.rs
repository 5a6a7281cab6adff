//! The BH3 comic source: its ids, absolute URLs, and the chapter list it
//! reads from the site's JSON.
use vstd::prelude::*;
use vstd::slice::slice_subrange;
use vstd::string::StringSliceAdditionalSpecFns;
use crate::fetch::{body_text_result, FetchError};
use crate::json_utils::{
    appended, escaped, extract_json_number, extract_json_string, find, find_subslice,
    json_number_value, json_string_value, lemma_appended_fail_extend, lemma_appended_start,
    lemma_appended_then, object_at, object_at_spec, put_escaped, put_str, reescaped,
};
use crate::pieces::{
    item_unit, joined, lemma_item_fail, lemma_item_ok, lemma_joined_empty, pieces_bytes, put_item,
    put_pieces, Piece,
};
use crate::sources::text::all_digits;

verus! {

pub const SITE_BASE: &'static str = "https://comic.bh3.com";

pub const MANGA_PREFIX: &'static str = "bh3:";

pub const CHAPTER_PREFIX: &'static str = "bh3ch:";

/// Whether `bytes` begins with `prefix`.
pub open spec fn has_prefix(bytes: Seq<u8>, prefix: Seq<u8>) -> bool {
    prefix.len() <= bytes.len() && bytes.take(prefix.len() as int) == prefix
}

pub fn starts_with(bytes: &[u8], prefix: &[u8]) -> (r: bool)
    ensures
        r == has_prefix(bytes@, prefix@),
{
    if bytes.len() < prefix.len() {
        return false;
    }
    let mut i: usize = 0;
    while i < prefix.len()
        invariant
            0 <= i <= prefix@.len() <= bytes@.len(),
            forall|k: int| 0 <= k < i ==> bytes@[k] == prefix@[k],
        decreases prefix@.len() - i,
    {
        if bytes[i] != prefix[i] {
            assert(bytes@.take(prefix@.len() as int)[i as int] != prefix@[i as int]);
            return false;
        }
        i = i + 1;
    }
    assert(bytes@.take(prefix@.len() as int) =~= prefix@);
    true
}

/// A non-empty run of decimal digits.
pub open spec fn is_decimal(bytes: Seq<u8>) -> bool {
    bytes.len() > 0 && all_digits(bytes)
}

pub fn valid_decimal(bytes: &[u8]) -> (r: bool)
    ensures
        r == is_decimal(bytes@),
{
    if bytes.len() == 0 {
        return false;
    }
    let mut i: usize = 0;
    while i < bytes.len()
        invariant
            0 <= i <= bytes@.len(),
            forall|k: int| 0 <= k < i ==> crate::json_utils::is_digit(#[trigger] bytes@[k]),
        decreases bytes@.len() - i,
    {
        if bytes[i] < 48 || bytes[i] > 57 {
            return false;
        }
        i = i + 1;
    }
    true
}

/// A URL as the payloads carry it, JSON-escaped: one starting with `/`
/// (but not `//`) gets the site in front.
pub open spec fn abs_url_text(url: Seq<u8>) -> Seq<u8> {
    if has_prefix(url, "http://".spec_bytes()) || has_prefix(url, "https://".spec_bytes()) || has_prefix(
        url,
        "//".spec_bytes(),
    ) {
        escaped(url)
    } else if has_prefix(url, "/".spec_bytes()) {
        SITE_BASE.spec_bytes() + escaped(url)
    } else {
        escaped(url)
    }
}

pub fn write_abs_url(dst: &mut [u8], cursor: &mut usize, url: &[u8]) -> (ok: bool)
    requires
        *old(cursor) <= old(dst)@.len(),
    ensures
        appended(old(dst)@, *old(cursor) as int, abs_url_text(url@), final(dst)@, *final(cursor) as int, ok),
        final(dst)@.len() == old(dst)@.len(),
        *final(cursor) <= final(dst)@.len(),
{
    if starts_with(url, "http://".as_bytes()) || starts_with(url, "https://".as_bytes()) || starts_with(
        url,
        "//".as_bytes(),
    ) {
        put_escaped(dst, cursor, url)
    } else if starts_with(url, "/".as_bytes()) {
        let ps = [Piece::Text(SITE_BASE), Piece::Escaped(url)];
        proof {
            reveal_with_fuel(pieces_bytes, 3);
            assert(pieces_bytes(ps@) =~= abs_url_text(url@));
        }
        put_pieces(dst, cursor, &ps)
    } else {
        put_escaped(dst, cursor, url)
    }
}

/// Why a request's manga id is refused, or its number.
pub open spec fn manga_numeric_of(req: Seq<u8>) -> Result<Seq<u8>, Seq<char>> {
    match json_string_value(req, "mangaId".spec_bytes()) {
        None => Err("missing mangaId"@),
        Some(m) => if m.len() <= MANGA_PREFIX.spec_bytes().len() || !has_prefix(m, MANGA_PREFIX.spec_bytes()) {
            Err("unexpected mangaId"@)
        } else {
            let id = m.skip(MANGA_PREFIX.spec_bytes().len() as int);
            if !is_decimal(id) {
                Err("invalid mangaId"@)
            } else {
                Ok(id)
            }
        },
    }
}

/// The number of the request's `bh3:` manga id; otherwise the message of
/// the `invalid_request` error the request gets.
pub fn extract_manga_numeric(req: &[u8]) -> (r: Result<&[u8], &'static str>)
    ensures
        match r {
            Ok(id) => manga_numeric_of(req@) == Ok::<Seq<u8>, Seq<char>>(id@),
            Err(msg) => manga_numeric_of(req@) == Err::<Seq<u8>, Seq<char>>(msg@),
        },
{
    let manga_id = match extract_json_string(req, "mangaId".as_bytes()) {
        Some(v) => v,
        None => return Err("missing mangaId"),
    };
    let prefix = MANGA_PREFIX.as_bytes();
    if manga_id.len() <= prefix.len() || !starts_with(manga_id, prefix) {
        return Err("unexpected mangaId");
    }
    let id = slice_subrange(manga_id, prefix.len(), manga_id.len());
    assert(id@ =~= manga_id@.skip(prefix@.len() as int));
    if !valid_decimal(id) {
        return Err("invalid mangaId");
    }
    Ok(id)
}

/// The next object of a top-level array from `*pos` (the array's bracket
/// may still be ahead); `*pos` moves past what was read.
pub fn next_top_object<'a>(data: &'a [u8], pos: &mut usize) -> (r: Option<&'a [u8]>)
    requires
        data@.len() < usize::MAX,
        *old(pos) <= data@.len() + 1,
    ensures
        *final(pos) <= data@.len() + 1,
        *final(pos) >= *old(pos),
        r is Some ==> *final(pos) > *old(pos),
        *final(pos) == object_at_spec(data@, *old(pos) as int, true).1,
        match r {
            Some(v) => object_at_spec(data@, *old(pos) as int, true).0 == Some(v@),
            None => object_at_spec(data@, *old(pos) as int, true).0 is None,
        },
{
    let (r, p) = object_at(data, *pos, true);
    *pos = p;
    r
}

/// The book and chapter numbers of a `bh3ch:book:chapter` id.
pub open spec fn chapter_parts_of(cid: Seq<u8>) -> Option<(Seq<u8>, Seq<u8>)> {
    let n = CHAPTER_PREFIX.spec_bytes().len() as int;
    if cid.len() <= n || !has_prefix(cid, CHAPTER_PREFIX.spec_bytes()) {
        None
    } else {
        let rest = cid.skip(n);
        match find(rest, ":".spec_bytes()) {
            None => None,
            Some(i) => {
                let book = rest.take(i);
                let chapter = rest.skip(i + 1);
                if is_decimal(book) && is_decimal(chapter) {
                    Some((book, chapter))
                } else {
                    None
                }
            },
        }
    }
}

pub fn split_chapter_id<'a>(chapter_id: &'a [u8]) -> (r: Option<(&'a [u8], &'a [u8])>)
    ensures
        match r {
            Some((b, c)) => chapter_parts_of(chapter_id@) == Some((b@, c@)),
            None => chapter_parts_of(chapter_id@) is None,
        },
{
    let prefix = CHAPTER_PREFIX.as_bytes();
    if chapter_id.len() <= prefix.len() || !starts_with(chapter_id, prefix) {
        return None;
    }
    let rest = slice_subrange(chapter_id, prefix.len(), chapter_id.len());
    assert(rest@ =~= chapter_id@.skip(prefix@.len() as int));
    let idx = match find_subslice(rest, ":".as_bytes()) {
        Some(v) => v,
        None => return None,
    };
    proof {
        reveal_strlit(":");
    }
    let book_id = slice_subrange(rest, 0, idx);
    let chapter = slice_subrange(rest, idx + 1, rest.len());
    assert(book_id@ =~= rest@.take(idx as int));
    assert(chapter@ =~= rest@.skip(idx + 1));
    if valid_decimal(book_id) && valid_decimal(chapter) {
        Some((book_id, chapter))
    } else {
        None
    }
}

/// The number stored under `key`, else its string.
pub open spec fn number_or_string_of(obj: Seq<u8>, key: Seq<u8>) -> Option<Seq<u8>> {
    match json_number_value(obj, key) {
        Some(v) => Some(v),
        None => json_string_value(obj, key),
    }
}

pub fn json_number_or_string<'a>(obj: &'a [u8], key: &[u8]) -> (r: Option<&'a [u8]>)
    ensures
        match r {
            Some(v) => number_or_string_of(obj@, key@) == Some(v@),
            None => number_or_string_of(obj@, key@) is None,
        },
{
    match extract_json_number(obj, key) {
        Some(v) => Some(v),
        None => extract_json_string(obj, key),
    }
}

/// Decodes the `bodyText` of a host HTTP reply into `dst`.
pub fn decode_body_text(resp: &[u8], dst: &mut [u8]) -> (r: Result<usize, FetchError>)
    ensures
        final(dst)@.len() == old(dst)@.len(),
        match r {
            Ok(n) => n <= old(dst)@.len() && body_text_result(resp@, old(dst)@.len()) == Ok::<
                Seq<u8>,
                FetchError,
            >(final(dst)@.take(n as int)) && final(dst)@.skip(n as int) == old(dst)@.skip(n as int),
            Err(e) => body_text_result(resp@, old(dst)@.len()) == Err::<Seq<u8>, FetchError>(e),
        },
{
    crate::fetch::decode_body_text(resp, dst)
}

/// The objects of a top-level array read one after the other from `pos`.
pub open spec fn top_objects(data: Seq<u8>, pos: int) -> Seq<Seq<u8>>
    decreases data.len() + 2 - pos,
{
    let (o, e) = object_at_spec(data, pos, true);
    match o {
        None => Seq::empty(),
        Some(v) => if e <= pos || e > data.len() + 1 {
            Seq::empty()
        } else {
            seq![v] + top_objects(data, e)
        },
    }
}

pub const CHAPTER_TAIL: &'static str = ",\"updatedAt\":null,\"pageCount\":null}";

/// How a chapter's timestamp is written: `YYYY-MM-DD hh:mm:ss` as an
/// ISO time in +08:00, another text as it is, none as `null`.
pub open spec fn timestamp_text(ts: Option<Seq<u8>>) -> Seq<u8> {
    match ts {
        Some(t) => if t.len() == 19 {
            "\"".spec_bytes() + escaped(t.take(10)) + "T".spec_bytes() + escaped(t.skip(11)) + "+08:00\"".spec_bytes()
        } else {
            "\"".spec_bytes() + escaped(t) + "\"".spec_bytes()
        },
        None => "null".spec_bytes(),
    }
}

/// The chapter entry of a chapter object of manga `id`.
#[verifier::opaque]
pub open spec fn chapter_entry(obj: Seq<u8>, id: Seq<u8>) -> Seq<u8> {
    let title = match json_string_value(obj, "title".spec_bytes()) {
        Some(t) => t,
        None => "Chapter".spec_bytes(),
    };
    let book = match number_or_string_of(obj, "bookid".spec_bytes()) {
        Some(b) => b,
        None => id,
    };
    let chapter = match number_or_string_of(obj, "chapterid".spec_bytes()) {
        Some(c) => c,
        None => "0".spec_bytes(),
    };
    "{\"id\":\"bh3ch:".spec_bytes() + escaped(book) + ":".spec_bytes() + escaped(chapter)
        + "\",\"mangaId\":\"bh3:".spec_bytes() + escaped(book) + "\",\"title\":\"".spec_bytes()
        + reescaped(title) + "\",\"chapterNumber\":\"".spec_bytes() + escaped(chapter)
        + "\",\"volumeNumber\":null,\"language\":\"zh\",\"publishedAt\":".spec_bytes()
        + timestamp_text(json_string_value(obj, "timestamp".spec_bytes())) + CHAPTER_TAIL.spec_bytes()
}

pub open spec fn chapter_entries(json: Seq<u8>, id: Seq<u8>) -> Seq<Seq<u8>> {
    top_objects(json, 0).map_values(|o: Seq<u8>| chapter_entry(o, id))
}

pub const LIST_END: &'static str = "],\"page\":{\"nextCursor\":null,\"hasMore\":false}}";

/// The chapter-list payload of manga `id` from the chapter JSON.
pub open spec fn chapters_json(json: Seq<u8>, id: Seq<u8>) -> Seq<u8> {
    "{\"items\":[".spec_bytes() + joined(chapter_entries(json, id)) + LIST_END.spec_bytes()
}

/// Writes one chapter entry, after a comma unless first.
#[verifier::rlimit(80)]
fn write_chapter(payload: &mut [u8], c: &mut usize, first: bool, obj: &[u8], id: &[u8]) -> (ok: bool)
    requires
        *old(c) <= old(payload)@.len(),
    ensures
        appended(
            old(payload)@,
            *old(c) as int,
            item_unit(!first, chapter_entry(obj@, id@)),
            final(payload)@,
            *final(c) as int,
            ok,
        ),
        final(payload)@.len() == old(payload)@.len(),
        *final(c) <= final(payload)@.len(),
{
    let title = match extract_json_string(obj, "title".as_bytes()) {
        Some(t) => t,
        None => "Chapter".as_bytes(),
    };
    let book_id = match json_number_or_string(obj, "bookid".as_bytes()) {
        Some(b) => b,
        None => id,
    };
    let chapter_id = match json_number_or_string(obj, "chapterid".as_bytes()) {
        Some(v) => v,
        None => "0".as_bytes(),
    };
    let timestamp = extract_json_string(obj, "timestamp".as_bytes());
    let (t1, t2, t3, t4, t5) = match timestamp {
        Some(ts) => if ts.len() == 19 {
            (
                Piece::Text("\""),
                Piece::Escaped(slice_subrange(ts, 0, 10)),
                Piece::Text("T"),
                Piece::Escaped(slice_subrange(ts, 11, 19)),
                Piece::Text("+08:00\""),
            )
        } else {
            (Piece::Text("\""), Piece::Escaped(ts), Piece::Text("\""), Piece::Text(""), Piece::Text(""))
        },
        None => (Piece::Text("null"), Piece::Text(""), Piece::Text(""), Piece::Text(""), Piece::Text("")),
    };
    let ps = [
        Piece::Text("{\"id\":\"bh3ch:"),
        Piece::Escaped(book_id),
        Piece::Text(":"),
        Piece::Escaped(chapter_id),
        Piece::Text("\",\"mangaId\":\"bh3:"),
        Piece::Escaped(book_id),
        Piece::Text("\",\"title\":\""),
        Piece::Reescaped(title),
        Piece::Text("\",\"chapterNumber\":\""),
        Piece::Escaped(chapter_id),
        Piece::Text("\",\"volumeNumber\":null,\"language\":\"zh\",\"publishedAt\":"),
        t1,
        t2,
        t3,
        t4,
        t5,
        Piece::Text(CHAPTER_TAIL),
    ];
    proof {
        reveal_strlit("");
        if let Some(ts) = timestamp {
            if ts@.len() == 19 {
                assert(ts@.subrange(0, 10) =~= ts@.take(10));
                assert(ts@.subrange(11, 19) =~= ts@.skip(11));
            }
        }
        reveal_with_fuel(pieces_bytes, 18);
        reveal(chapter_entry);
        assert(pieces_bytes(ps@) =~= chapter_entry(obj@, id@));
    }
    put_item(payload, c, first, &ps)
}

/// Writes the chapter-list payload of manga `id` from the chapter JSON;
/// its length, or `None` when it does not fit.
pub fn chapters_payload(json: &[u8], id: &[u8], payload: &mut [u8]) -> (r: Option<usize>)
    requires
        json@.len() < usize::MAX,
    ensures
        final(payload)@.len() == old(payload)@.len(),
        match r {
            Some(n) => n == chapters_json(json@, id@).len() && final(payload)@.take(n as int) == chapters_json(
                json@,
                id@,
            ),
            None => chapters_json(json@, id@).len() > old(payload)@.len(),
        },
{
    let ghost es = chapter_entries(json@, id@);
    let ghost objs = top_objects(json@, 0);
    let ghost d0 = payload@;
    let ghost head = "{\"items\":[".spec_bytes();
    let ghost tail = LIST_END.spec_bytes();
    let mut c: usize = 0;
    if !put_str(payload, &mut c, "{\"items\":[") {
        proof {
            lemma_appended_fail_extend(d0, 0, head, payload@, c as int, joined(es) + tail);
            assert(head + (joined(es) + tail) =~= chapters_json(json@, id@));
        }
        return None;
    }
    let ghost dh = payload@;
    let ghost ch = c as int;
    let mut pos: usize = 0;
    let mut written: usize = 0;
    proof {
        lemma_joined_empty(es);
        lemma_appended_start(dh, ch);
        assert(objs =~= objs.take(0) + top_objects(json@, 0));
    }
    loop
        invariant_except_break
            objs == objs.take(written as int) + top_objects(json@, pos as int),
        invariant
            pos <= json@.len() + 1,
            json@.len() < usize::MAX,
            written <= objs.len(),
            written <= pos,
            head == "{\"items\":[".spec_bytes(),
            tail == LIST_END.spec_bytes(),
            es == chapter_entries(json@, id@),
            objs == top_objects(json@, 0),
            es.len() == objs.len(),
            d0 == old(payload)@,
            appended(d0, 0, head, dh, ch, true),
            dh.len() == d0.len(),
            0 <= ch <= dh.len(),
            payload@.len() == d0.len(),
            c <= payload@.len(),
            appended(dh, ch, joined(es.take(written as int)), payload@, c as int, true),
        ensures
            written == objs.len(),
        decreases json@.len() + 2 - pos,
    {
        let ghost old_pos = pos as int;
        let obj = match next_top_object(json, &mut pos) {
            Some(o) => o,
            None => {
                proof {
                    assert(objs =~= objs.take(written as int));
                }
                break;
            },
        };
        proof {
            assert(top_objects(json@, old_pos) == seq![obj@] + top_objects(json@, pos as int));
            assert(objs.take(written + 1) =~= objs.take(written as int).push(obj@));
            assert(objs =~= objs.take(written + 1) + top_objects(json@, pos as int));
            assert(objs[written as int] == obj@);
            assert(es[written as int] == chapter_entry(obj@, id@));
        }
        let ghost dm = payload@;
        let ghost cm = c as int;
        let good = write_chapter(payload, &mut c, written == 0, obj, id);
        if !good {
            proof {
                lemma_item_fail(es, written as int, dh, ch, dm, cm, payload@, c as int);
                lemma_appended_then(d0, 0, head, dh, ch, joined(es), payload@, c as int, false);
                lemma_appended_fail_extend(d0, 0, head + joined(es), payload@, c as int, tail);
                assert(chapters_json(json@, id@) == head + joined(es) + tail);
            }
            return None;
        }
        proof {
            lemma_item_ok(es, written as int, dh, ch, dm, cm, payload@, c as int);
        }
        written = written + 1;
    }
    proof {
        assert(es.take(written as int) =~= es);
        lemma_appended_then(d0, 0, head, dh, ch, joined(es), payload@, c as int, true);
    }
    let ghost dl = payload@;
    let ghost cl = c as int;
    let ok = put_str(payload, &mut c, LIST_END);
    proof {
        lemma_appended_then(d0, 0, head + joined(es), dl, cl, tail, payload@, c as int, ok);
    }
    if !ok {
        return None;
    }
    proof {
        assert(payload@.take(c as int) =~= chapters_json(json@, id@));
    }
    Some(c)
}

/// A value the page gave, or a default.
pub open spec fn or_else(v: Option<Seq<u8>>, d: Seq<u8>) -> Seq<u8> {
    match v {
        Some(x) => x,
        None => d,
    }
}

pub open spec fn opt_view(o: Option<&[u8]>) -> Option<Seq<u8>> {
    match o {
        Some(b) => Some(b@),
        None => None,
    }
}

/// The cover URL of a payload: the absolute form of the image source, or
/// nothing.
pub open spec fn cover_text(cover: Option<Seq<u8>>) -> Seq<u8> {
    match cover {
        Some(c) => abs_url_text(c),
        None => Seq::empty(),
    }
}

fn put_cover(payload: &mut [u8], c: &mut usize, cover: Option<&[u8]>) -> (ok: bool)
    requires
        *old(c) <= old(payload)@.len(),
    ensures
        appended(old(payload)@, *old(c) as int, cover_text(opt_view(cover)), final(payload)@, *final(c) as int, ok),
        final(payload)@.len() == old(payload)@.len(),
        *final(c) <= final(payload)@.len(),
{
    match cover {
        Some(src) => write_abs_url(payload, c, src),
        None => {
            proof {
                lemma_appended_start(payload@, *c as int);
            }
            true
        },
    }
}

/// Writes `a`, then `b` with `put_cover`, then `z`, as one run that stops
/// at the first part that does not fit.
fn put_around_cover(payload: &mut [u8], c: &mut usize, a: &[Piece], cover: Option<&[u8]>, z: &[Piece]) -> (ok: bool)
    requires
        *old(c) <= old(payload)@.len(),
    ensures
        appended(
            old(payload)@,
            *old(c) as int,
            pieces_bytes(a@) + cover_text(opt_view(cover)) + pieces_bytes(z@),
            final(payload)@,
            *final(c) as int,
            ok,
        ),
        final(payload)@.len() == old(payload)@.len(),
        *final(c) <= final(payload)@.len(),
{
    let ghost d0 = payload@;
    let ghost c0 = *c as int;
    let ghost ua = pieces_bytes(a@);
    let ghost ub = cover_text(opt_view(cover));
    let ghost uz = pieces_bytes(z@);
    if !put_pieces(payload, c, a) {
        proof {
            lemma_appended_fail_extend(d0, c0, ua, payload@, *c as int, ub + uz);
            assert(ua + (ub + uz) =~= ua + ub + uz);
        }
        return false;
    }
    let ghost dm = payload@;
    let ghost cm = *c as int;
    let ok = put_cover(payload, c, cover);
    proof {
        lemma_appended_then(d0, c0, ua, dm, cm, ub, payload@, *c as int, ok);
    }
    if !ok {
        proof {
            lemma_appended_fail_extend(d0, c0, ua + ub, payload@, *c as int, uz);
        }
        return false;
    }
    let ghost dm = payload@;
    let ghost cm = *c as int;
    let ok = put_pieces(payload, c, z);
    proof {
        lemma_appended_then(d0, c0, ua + ub, dm, cm, uz, payload@, *c as int, ok);
    }
    ok
}

pub const DETAIL_TAIL: &'static str =
    "\"},\"authors\":[],\"artists\":[],\"status\":\"unknown\",\"contentRating\":\"safe\",\"language\":\"zh\",\"tags\":[\"bh3\"],\"links\":[{\"kind\":\"source\",\"url\":\"https://comic.bh3.com/book/";

/// The manga payload of book `id`, from what its page shows: title,
/// description and cover image, each when found.
pub open spec fn detail_json(id: Seq<u8>, title: Option<Seq<u8>>, desc: Option<Seq<u8>>, cover: Option<Seq<u8>>) -> Seq<u8> {
    "{\"manga\":{\"id\":\"bh3:".spec_bytes() + escaped(id) + "\",\"title\":\"".spec_bytes() + escaped(
        or_else(title, id),
    ) + "\",\"alternateTitles\":[],\"description\":\"".spec_bytes() + escaped(or_else(desc, Seq::empty()))
        + "\",\"cover\":{\"kind\":\"url\",\"url\":\"".spec_bytes() + cover_text(cover) + DETAIL_TAIL.spec_bytes()
        + escaped(id) + "\"}]}}".spec_bytes()
}

/// Writes the manga payload of book `id` from what its page shows; its
/// length, or `None` when it does not fit.
pub fn detail_payload(
    id: &[u8],
    title: Option<&[u8]>,
    desc: Option<&[u8]>,
    cover: Option<&[u8]>,
    payload: &mut [u8],
) -> (r: Option<usize>)
    ensures
        final(payload)@.len() == old(payload)@.len(),
        match r {
            Some(n) => n == detail_json(id@, opt_view(title), opt_view(desc), opt_view(cover)).len()
                && final(payload)@.take(n as int) == detail_json(id@, opt_view(title), opt_view(desc), opt_view(cover)),
            None => detail_json(id@, opt_view(title), opt_view(desc), opt_view(cover)).len() > old(payload)@.len(),
        },
{
    let t = match title {
        Some(v) => v,
        None => id,
    };
    let d = match desc {
        Some(v) => v,
        None => "".as_bytes(),
    };
    proof {
        reveal_strlit("");
    }
    let a = [
        Piece::Text("{\"manga\":{\"id\":\"bh3:"),
        Piece::Escaped(id),
        Piece::Text("\",\"title\":\""),
        Piece::Escaped(t),
        Piece::Text("\",\"alternateTitles\":[],\"description\":\""),
        Piece::Escaped(d),
        Piece::Text("\",\"cover\":{\"kind\":\"url\",\"url\":\""),
    ];
    let z = [Piece::Text(DETAIL_TAIL), Piece::Escaped(id), Piece::Text("\"}]}}")];
    proof {
        reveal_with_fuel(pieces_bytes, 8);
        assert(pieces_bytes(a@) + cover_text(opt_view(cover)) + pieces_bytes(z@) =~= detail_json(
            id@,
            opt_view(title),
            opt_view(desc),
            opt_view(cover),
        ));
    }
    let mut c: usize = 0;
    if !put_around_cover(payload, &mut c, &a, cover, &z) {
        return None;
    }
    Some(c)
}

/// The opening of the page list of chapter `num` of book `book`.
pub open spec fn pages_head(book: Seq<u8>, num: Seq<u8>) -> Seq<u8> {
    "{\"chapterId\":\"bh3ch:".spec_bytes() + escaped(book) + ":".spec_bytes() + escaped(num) + "\",\"pages\":[".spec_bytes()
}

/// Writes the opening of the page list of chapter `num` of book `book`.
pub fn write_pages_head(payload: &mut [u8], c: &mut usize, book: &[u8], num: &[u8]) -> (ok: bool)
    requires
        *old(c) <= old(payload)@.len(),
    ensures
        appended(old(payload)@, *old(c) as int, pages_head(book@, num@), final(payload)@, *final(c) as int, ok),
        final(payload)@.len() == old(payload)@.len(),
        *final(c) <= final(payload)@.len(),
{
    let ps = [
        Piece::Text("{\"chapterId\":\"bh3ch:"),
        Piece::Escaped(book),
        Piece::Text(":"),
        Piece::Escaped(num),
        Piece::Text("\",\"pages\":["),
    ];
    proof {
        reveal_with_fuel(pieces_bytes, 6);
        assert(pieces_bytes(ps@) =~= pages_head(book@, num@));
    }
    put_pieces(payload, c, &ps)
}

/// Page `k` of chapter `num` of book `book`, its image at `src`.
pub open spec fn page_json(book: Seq<u8>, num: Seq<u8>, k: nat, src: Seq<u8>) -> Seq<u8> {
    "{\"id\":\"bh3page:".spec_bytes() + escaped(book) + ":".spec_bytes() + escaped(num) + ":".spec_bytes()
        + crate::json_utils::decimal(k) + "\",\"index\":".spec_bytes() + crate::json_utils::decimal(k)
        + ",\"image\":{\"kind\":\"url\",\"url\":\"".spec_bytes() + abs_url_text(src) + "\"}}".spec_bytes()
}

/// Writes page `k` (after a comma unless it is the first) of chapter `num`
/// of book `book`, its image at `src`.
pub fn write_page(payload: &mut [u8], c: &mut usize, book: &[u8], num: &[u8], k: usize, src: &[u8]) -> (ok: bool)
    requires
        *old(c) <= old(payload)@.len(),
    ensures
        appended(
            old(payload)@,
            *old(c) as int,
            item_unit(k > 0, page_json(book@, num@, k as nat, src@)),
            final(payload)@,
            *final(c) as int,
            ok,
        ),
        final(payload)@.len() == old(payload)@.len(),
        *final(c) <= final(payload)@.len(),
{
    let ghost d0 = payload@;
    let ghost c0 = *c as int;
    let a = [
        Piece::Text(if k > 0 { "," } else { "" }),
        Piece::Text("{\"id\":\"bh3page:"),
        Piece::Escaped(book),
        Piece::Text(":"),
        Piece::Escaped(num),
        Piece::Text(":"),
        Piece::Number(k),
        Piece::Text("\",\"index\":"),
        Piece::Number(k),
        Piece::Text(",\"image\":{\"kind\":\"url\",\"url\":\""),
    ];
    let z = [Piece::Text("\"}}")];
    proof {
        reveal_strlit("");
        reveal_with_fuel(pieces_bytes, 11);
        assert(pieces_bytes(a@) + cover_text(opt_view(Some(src))) + pieces_bytes(z@) =~= item_unit(
            k > 0,
            page_json(book@, num@, k as nat, src@),
        ));
    }
    put_around_cover(payload, c, &a, Some(src), &z)
}

pub const LIST_ITEM_TAIL: &'static str =
    "\"},\"authors\":[],\"status\":\"unknown\",\"contentRating\":\"safe\",\"sourceTags\":[\"bh3\"]}";

/// The list item of book `id`, from what its card shows.
pub open spec fn list_item_json(id: Seq<u8>, title: Option<Seq<u8>>, image: Option<Seq<u8>>) -> Seq<u8> {
    "{\"id\":\"bh3:".spec_bytes() + escaped(id) + "\",\"title\":\"".spec_bytes() + escaped(or_else(title, id))
        + "\",\"cover\":{\"kind\":\"url\",\"url\":\"".spec_bytes() + cover_text(image) + LIST_ITEM_TAIL.spec_bytes()
}

/// Writes the list item of book `id` from what its card shows, after a
/// comma unless it is the first.
pub fn write_list_item(
    payload: &mut [u8],
    c: &mut usize,
    first: bool,
    id: &[u8],
    title: Option<&[u8]>,
    image: Option<&[u8]>,
) -> (ok: bool)
    requires
        *old(c) <= old(payload)@.len(),
    ensures
        appended(
            old(payload)@,
            *old(c) as int,
            item_unit(!first, list_item_json(id@, opt_view(title), opt_view(image))),
            final(payload)@,
            *final(c) as int,
            ok,
        ),
        final(payload)@.len() == old(payload)@.len(),
        *final(c) <= final(payload)@.len(),
{
    let t = match title {
        Some(v) => v,
        None => id,
    };
    let a = [
        Piece::Text(if first { "" } else { "," }),
        Piece::Text("{\"id\":\"bh3:"),
        Piece::Escaped(id),
        Piece::Text("\",\"title\":\""),
        Piece::Escaped(t),
        Piece::Text("\",\"cover\":{\"kind\":\"url\",\"url\":\""),
    ];
    let z = [Piece::Text(LIST_ITEM_TAIL)];
    proof {
        reveal_strlit("");
        reveal_with_fuel(pieces_bytes, 7);
        assert(pieces_bytes(a@) + cover_text(opt_view(image)) + pieces_bytes(z@) =~= item_unit(
            !first,
            list_item_json(id@, opt_view(title), opt_view(image)),
        ));
    }
    put_around_cover(payload, c, &a, image, &z)
}

} // verus!
