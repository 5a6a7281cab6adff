//! HappyMH chapters, pages and image requests: the JSON each is answered
//! with.
use vstd::prelude::*;
use vstd::string::StringSliceAdditionalSpecFns;
use crate::json_utils::{appended, decimal, escaped, extract_json_number, extract_json_string, json_number_value, json_string_value};
use crate::sources::happymh::{parse_usize, usize_or};
use crate::sources::happymh_html::{scan_image, scan_image_of};
use crate::sources::text::digits_fit;
use crate::pieces::{item_unit, item_units, pieces_bytes, pieces_units, put_item, put_pieces, Piece};
use crate::units::{byte_units, wrote_units};
use crate::json_utils::escape_fn;

verus! {

pub const CHAPTER_TAIL: &'static str =
    "\",\"volumeNumber\":null,\"language\":\"zh\",\"publishedAt\":null,\"updatedAt\":null,\"pageCount\":null}";

/// Chapter `cid` of manga `code`, listed on page `page` of its chapter
/// list, with its title and number.
pub open spec fn chapter_json(code: Seq<u8>, page: nat, cid: Seq<u8>, title: Seq<u8>, order: Seq<u8>) -> Seq<u8> {
    "{\"id\":\"chapter:".spec_bytes() + escaped(code) + ":".spec_bytes() + decimal(page) + ":".spec_bytes() + escaped(cid)
        + "\",\"mangaId\":\"manga:".spec_bytes() + escaped(code) + "\",\"title\":\"".spec_bytes() + escaped(title)
        + "\",\"chapterNumber\":\"".spec_bytes() + escaped(order) + CHAPTER_TAIL.spec_bytes()
}

/// The units a chapter of the list is written in.
pub open spec fn chapter_units(code: Seq<u8>, page: nat, cid: Seq<u8>, title: Seq<u8>, order: Seq<u8>) -> Seq<Seq<u8>> {
    seq!["{\"id\":\"chapter:".spec_bytes()] + byte_units(code, escape_fn()) + seq![":".spec_bytes(), decimal(page), ":".spec_bytes()]
        + byte_units(cid, escape_fn()) + seq!["\",\"mangaId\":\"manga:".spec_bytes()] + byte_units(code, escape_fn())
        + seq!["\",\"title\":\"".spec_bytes()] + byte_units(title, escape_fn()) + seq!["\",\"chapterNumber\":\"".spec_bytes()]
        + byte_units(order, escape_fn()) + seq![CHAPTER_TAIL.spec_bytes()]
}

/// Writes a chapter of the list, after a comma unless it comes first.
pub fn write_chapter(
    payload: &mut [u8],
    c: &mut usize,
    first: bool,
    code: &[u8],
    page: usize,
    cid: &[u8],
    title: &[u8],
    order: &[u8],
) -> (ok: bool)
    requires
        *old(c) <= old(payload)@.len(),
    ensures
        appended(
            old(payload)@,
            *old(c) as int,
            item_unit(!first, chapter_json(code@, page as nat, cid@, title@, order@)),
            final(payload)@,
            *final(c) as int,
            ok,
        ),
        wrote_units(
            old(payload)@,
            *old(c) as int,
            item_units(!first, chapter_units(code@, page as nat, cid@, title@, order@)),
            final(payload)@,
            *final(c) as int,
            ok,
        ),
        final(payload)@.len() == old(payload)@.len(),
        *final(c) <= final(payload)@.len(),
{
    let ps = [
        Piece::Text("{\"id\":\"chapter:"),
        Piece::Escaped(code),
        Piece::Text(":"),
        Piece::Number(page),
        Piece::Text(":"),
        Piece::Escaped(cid),
        Piece::Text("\",\"mangaId\":\"manga:"),
        Piece::Escaped(code),
        Piece::Text("\",\"title\":\""),
        Piece::Escaped(title),
        Piece::Text("\",\"chapterNumber\":\""),
        Piece::Escaped(order),
        Piece::Text(CHAPTER_TAIL),
    ];
    proof {
        reveal_with_fuel(pieces_bytes, 14);
        assert(pieces_bytes(ps@) =~= chapter_json(code@, page as nat, cid@, title@, order@));
        reveal_with_fuel(pieces_units, 14);
        assert(pieces_units(ps@) =~= chapter_units(code@, page as nat, cid@, title@, order@));
    }
    put_item(payload, c, first, &ps)
}

/// Page `k` of chapter `cid` of manga `code`, shown from `img`.
pub open spec fn page_json(code: Seq<u8>, cid: Seq<u8>, k: nat, img: Seq<u8>) -> Seq<u8> {
    "{\"id\":\"page:".spec_bytes() + escaped(code) + ":".spec_bytes() + escaped(cid) + ":".spec_bytes() + decimal(k)
        + "\",\"index\":".spec_bytes() + decimal(k) + ",\"image\":{\"kind\":\"url\",\"url\":\"".spec_bytes() + escaped(img)
        + "\"}}".spec_bytes()
}

/// The units page `k` is written in.
pub open spec fn page_units(code: Seq<u8>, cid: Seq<u8>, k: nat, img: Seq<u8>) -> Seq<Seq<u8>> {
    seq!["{\"id\":\"page:".spec_bytes()] + byte_units(code, escape_fn()) + seq![":".spec_bytes()] + byte_units(cid, escape_fn())
        + seq![":".spec_bytes(), decimal(k), "\",\"index\":".spec_bytes(), decimal(k), ",\"image\":{\"kind\":\"url\",\"url\":\"".spec_bytes()]
        + byte_units(img, escape_fn()) + seq!["\"}}".spec_bytes()]
}

/// Writes page `k`, after a comma unless it is the first.
pub fn write_page(payload: &mut [u8], c: &mut usize, code: &[u8], cid: &[u8], k: usize, img: &[u8]) -> (ok: bool)
    requires
        *old(c) <= old(payload)@.len(),
    ensures
        appended(old(payload)@, *old(c) as int, item_unit(k > 0, page_json(code@, cid@, k as nat, img@)), final(payload)@, *final(c) as int, ok),
        wrote_units(
            old(payload)@,
            *old(c) as int,
            item_units(k > 0, page_units(code@, cid@, k as nat, img@)),
            final(payload)@,
            *final(c) as int,
            ok,
        ),
        final(payload)@.len() == old(payload)@.len(),
        *final(c) <= final(payload)@.len(),
{
    let ps = [
        Piece::Text("{\"id\":\"page:"),
        Piece::Escaped(code),
        Piece::Text(":"),
        Piece::Escaped(cid),
        Piece::Text(":"),
        Piece::Number(k),
        Piece::Text("\",\"index\":"),
        Piece::Number(k),
        Piece::Text(",\"image\":{\"kind\":\"url\",\"url\":\""),
        Piece::Escaped(img),
        Piece::Text("\"}}"),
    ];
    proof {
        reveal_with_fuel(pieces_bytes, 12);
        assert(pieces_bytes(ps@) =~= page_json(code@, cid@, k as nat, img@));
        reveal_with_fuel(pieces_units, 12);
        assert(pieces_units(ps@) =~= page_units(code@, cid@, k as nat, img@));
    }
    put_item(payload, c, k == 0, &ps)
}

/// The request for an image at `url`, sent with the site as referer.
pub open spec fn image_request_json(url: Seq<u8>) -> Seq<u8> {
    "{\"url\":\"".spec_bytes() + escaped(url) + "\",\"headers\":{\"Referer\":\"https://m.happymh.com/\"}}".spec_bytes()
}

/// Writes the request for the image at `url`; its length, or `None` when
/// it does not fit.
pub fn image_request_payload(url: &[u8], payload: &mut [u8]) -> (r: Option<usize>)
    ensures
        final(payload)@.len() == old(payload)@.len(),
        match r {
            Some(n) => n == image_request_json(url@).len() && final(payload)@.take(n as int) == image_request_json(url@),
            None => image_request_json(url@).len() > old(payload)@.len(),
        },
{
    let ps = [
        Piece::Text("{\"url\":\""),
        Piece::Escaped(url),
        Piece::Text("\",\"headers\":{\"Referer\":\"https://m.happymh.com/\"}}"),
    ];
    proof {
        reveal_with_fuel(pieces_bytes, 4);
        assert(pieces_bytes(ps@) =~= image_request_json(url@));
    }
    let mut c: usize = 0;
    let ghost d0 = payload@;
    if put_pieces(payload, &mut c, &ps) {
        proof {
            assert(payload@.take(c as int) =~= image_request_json(url@));
        }
        Some(c)
    } else {
        None
    }
}

/// A number field of a reply object, or `default`.
pub open spec fn number_or(obj: Seq<u8>, key: Seq<u8>, default: nat) -> nat {
    match json_number_value(obj, key) {
        Some(v) => usize_or(v, default),
        None => default,
    }
}

/// Whether the scan's `n` fits a `usize`.
pub open spec fn scan_n_fits(obj: Seq<u8>) -> bool {
    json_number_value(obj, "n".spec_bytes()) matches Some(v) ==> digits_fit(v, usize::MAX as nat)
}

/// Whether a scan's size is read: when it is not the first scan and has a
/// URL.
pub open spec fn scan_size_read(obj: Seq<u8>) -> bool {
    number_or(obj, "n".spec_bytes(), 0) != 1 && scan_image_of(obj, false) is Some
}

/// Whether the number fields of a scan that are read fit a `usize`.
pub open spec fn scan_numbers_fit(obj: Seq<u8>) -> bool {
    &&& scan_n_fits(obj)
    &&& scan_size_read(obj) ==> (json_number_value(obj, "width".spec_bytes()) matches Some(v) ==> digits_fit(
        v,
        usize::MAX as nat,
    ))
    &&& scan_size_read(obj) ==> (json_number_value(obj, "height".spec_bytes()) matches Some(v) ==> digits_fit(
        v,
        usize::MAX as nat,
    ))
}

/// Whether a scan's width and height are read.
pub fn scan_reads_size(obj: &[u8]) -> (r: bool)
    requires
        scan_n_fits(obj@),
    ensures
        r == scan_size_read(obj@),
{
    number_field(obj, "n") != 1 && scan_image(obj, false).is_some()
}

/// The image a scan object gives a page: none for the site's own first
/// scan (`n` of 1) or a scan without a URL; a scan wider or taller than
/// 16383 loses its resize query.
pub open spec fn page_image_of(obj: Seq<u8>) -> Option<Seq<u8>> {
    if number_or(obj, "n".spec_bytes(), 0) == 1 {
        None
    } else {
        scan_image_of(
            obj,
            number_or(obj, "width".spec_bytes(), 0) > 16383 || number_or(obj, "height".spec_bytes(), 0) > 16383,
        )
    }
}

fn number_field(obj: &[u8], key: &str) -> (r: usize)
    requires
        json_number_value(obj@, key.spec_bytes()) matches Some(v) ==> digits_fit(v, usize::MAX as nat),
    ensures
        r == number_or(obj@, key.spec_bytes(), 0),
{
    match extract_json_number(obj, key.as_bytes()) {
        Some(v) => parse_usize(v, 0),
        None => 0,
    }
}

pub fn page_image(obj: &[u8]) -> (r: Option<&[u8]>)
    requires
        scan_numbers_fit(obj@),
    ensures
        match r {
            Some(v) => page_image_of(obj@) == Some(v@),
            None => page_image_of(obj@) is None,
        },
{
    if number_field(obj, "n") == 1 {
        return None;
    }
    if scan_image(obj, false).is_none() {
        return None;
    }
    let width = number_field(obj, "width");
    let height = number_field(obj, "height");
    scan_image(obj, width > 16383 || height > 16383)
}

/// The chapter a chapter-list object describes: its id, its title (else
/// `Chapter`) and its number (else its id); none without an id.
pub open spec fn chapter_fields_of(obj: Seq<u8>) -> Option<(Seq<u8>, Seq<u8>, Seq<u8>)> {
    match json_number_value(obj, "id".spec_bytes()) {
        None => None,
        Some(cid) => Some(
            (
                cid,
                match json_string_value(obj, "chapterName".spec_bytes()) {
                    Some(t) => t,
                    None => "Chapter".spec_bytes(),
                },
                match json_number_value(obj, "order".spec_bytes()) {
                    Some(o) => o,
                    None => cid,
                },
            ),
        ),
    }
}

pub fn chapter_fields<'a>(obj: &'a [u8]) -> (r: Option<(&'a [u8], &'a [u8], &'a [u8])>)
    ensures
        match r {
            Some((a, b, c)) => chapter_fields_of(obj@) == Some((a@, b@, c@)),
            None => chapter_fields_of(obj@) is None,
        },
{
    let cid = match extract_json_number(obj, "id".as_bytes()) {
        Some(v) => v,
        None => return None,
    };
    let title = match extract_json_string(obj, "chapterName".as_bytes()) {
        Some(t) => t,
        None => "Chapter".as_bytes(),
    };
    let order = match extract_json_number(obj, "order".as_bytes()) {
        Some(o) => o,
        None => cid,
    };
    Some((cid, title, order))
}

} // verus!
