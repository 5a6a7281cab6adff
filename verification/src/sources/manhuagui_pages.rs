//! The Manhuagui reader page: the image JSON its script carries (found in
//! the page with its JavaScript escapes undone, else in the page as it
//! is) names the files of the chapter, which become its page list.
use vstd::prelude::*;
use vstd::slice::slice_subrange;
use vstd::string::StringSliceAdditionalSpecFns;
use crate::json_utils::{
    appended, decimal, escaped, extract_json_string, json_string_value, put_str, string_close,
    string_close_exec,
};
use crate::units::{byte_units, wrote_units};
use crate::json_utils::escape_fn;
use crate::pieces::{
    concat_units, item_units, lemma_units_empty, lemma_units_item_fail, lemma_units_item_ok, lemma_whole_items_at,
    lemma_list_written, listed, pieces_units, whole_items, list_written,
    item_unit, joined, joined_written, lemma_item_fail, lemma_item_ok, lemma_joined_empty,
    lemma_joined_prefix, lemma_list_text, pieces_bytes, put_item, put_pieces, Piece,
};
use crate::sources::bh3::{has_prefix, or_else, starts_with};
use crate::sources::hanman18_pages::{byte_from, find_byte};
use crate::sources::site::pages_head;
use crate::sources::manhuagui::{
    extract_json_array, extract_sl_value, find_img_json, hex_digit_value, img_json_of,
    json_array_after, sl_value_of, unescape_from, unescape_js_to, utf8_bytes, BASE_URL,
};

verus! {

pub const IMAGE_CDN: &'static str = "https://i.hamreus.com";

/// The reader URL of a chapter id: a full URL as it is, a rooted path
/// after the site, anything else after the site and a slash.
pub open spec fn chapter_url_of(id: Seq<u8>) -> Seq<u8> {
    if has_prefix(id, "http://".spec_bytes()) || has_prefix(id, "https://".spec_bytes()) {
        id
    } else if has_prefix(id, "/".spec_bytes()) {
        BASE_URL.spec_bytes() + id
    } else {
        BASE_URL.spec_bytes() + "/".spec_bytes() + id
    }
}

/// Writes the reader URL of chapter `id` into `out`; its length, or `None`
/// when it does not fit.
pub fn chapter_url(id: &[u8], out: &mut [u8]) -> (r: Option<usize>)
    ensures
        final(out)@.len() == old(out)@.len(),
        match r {
            Some(n) => n == chapter_url_of(id@).len() && n <= final(out)@.len() && final(out)@.take(n as int) == chapter_url_of(id@),
            None => chapter_url_of(id@).len() > old(out)@.len(),
        },
{
    let ps = if starts_with(id, "http://".as_bytes()) || starts_with(id, "https://".as_bytes()) {
        [Piece::Raw(id), Piece::Text(""), Piece::Text("")]
    } else if starts_with(id, "/".as_bytes()) {
        [Piece::Text(BASE_URL), Piece::Raw(id), Piece::Text("")]
    } else {
        [Piece::Text(BASE_URL), Piece::Text("/"), Piece::Raw(id)]
    };
    proof {
        reveal_strlit("");
        reveal_with_fuel(pieces_bytes, 4);
        assert(pieces_bytes(ps@) =~= chapter_url_of(id@));
    }
    let mut c: usize = 0;
    if !put_pieces(out, &mut c, &ps) {
        return None;
    }
    Some(c)
}

/// The text undone from `src` never holds more than the room left.
proof fn lemma_unescape_len(src: Seq<u8>, i: int, c: int, cap: int)
    requires
        0 <= c,
    ensures
        unescape_from(src, i, c, cap).len() <= if c <= cap { cap - c } else { 0 },
    decreases src.len() - i,
{
    if i < 0 || i >= src.len() || c >= cap {
    } else if src[i] == 92 && i + 1 < src.len() {
        let n = src[i + 1];
        if n == 120 && i + 3 < src.len() {
            lemma_unescape_len(src, i + 4, c + 1, cap);
            lemma_unescape_len(src, i + 1, c + 1, cap);
        } else if n == 117 && i + 5 < src.len() {
            let h = src.subrange(i + 2, i + 6);
            let u = utf8_bytes(crate::json_utils::hex_number(h) as u32);
            lemma_unescape_len(src, i + 6, c + u.len(), cap);
            lemma_unescape_len(src, i + 1, c + 1, cap);
        } else {
            lemma_unescape_len(src, i + 2, c + 1, cap);
        }
    } else {
        lemma_unescape_len(src, i + 1, c + 1, cap);
    }
}

/// The image JSON of a reader page, with room for `cap` bytes of undone
/// text: found in the undone text, else in the page itself.
pub open spec fn image_json_of(html: Seq<u8>, cap: nat) -> Option<Seq<u8>> {
    match img_json_of(unescape_from(html, 0, 0, cap as int)) {
        Some(j) => Some(j),
        None => img_json_of(html),
    }
}

/// The strings quoted in `d` from `i` (a backslash escapes the byte after
/// it), in order, up to the first that is not closed.
pub open spec fn quoted_strings(d: Seq<u8>, i: int) -> Seq<Seq<u8>>
    decreases d.len() - i,
{
    match byte_from(d, i, 34) {
        None => Seq::empty(),
        Some(q) => match string_close(d, q + 1) {
            None => Seq::empty(),
            Some(e) => if e < i || e >= d.len() {
                Seq::empty()
            } else {
                seq![d.subrange(q + 1, e)] + quoted_strings(d, e + 1)
            },
        },
    }
}

pub const MAX_PAGES: usize = 500;

/// The files a chapter lists: the first 500 strings of its `files` array.
pub open spec fn page_files(files: Seq<u8>) -> Seq<Seq<u8>> {
    let all = quoted_strings(files, 0);
    if all.len() <= MAX_PAGES {
        all
    } else {
        all.take(MAX_PAGES as int)
    }
}

/// The query that signs an image URL, when the JSON gives its parts.
pub open spec fn image_query(e: Seq<u8>, m: Seq<u8>) -> Seq<u8> {
    if e.len() > 0 || m.len() > 0 {
        "?e=".spec_bytes() + escaped(e) + "&m=".spec_bytes() + escaped(m)
    } else {
        Seq::empty()
    }
}

/// Page `k` of chapter `id`: the file `file` under `path` on the image
/// host, signed with `e` and `m`.
pub open spec fn page_json(id: Seq<u8>, k: nat, path: Seq<u8>, file: Seq<u8>, e: Seq<u8>, m: Seq<u8>) -> Seq<u8> {
    "{\"id\":\"page:".spec_bytes() + escaped(id) + ":".spec_bytes() + decimal(k) + "\",\"index\":".spec_bytes()
        + decimal(k) + ",\"image\":{\"kind\":\"url\",\"url\":\"".spec_bytes() + IMAGE_CDN.spec_bytes()
        + escaped(path) + escaped(file) + image_query(e, m) + "\"}}".spec_bytes()
}

pub open spec fn page_items(id: Seq<u8>, files: Seq<Seq<u8>>, path: Seq<u8>, e: Seq<u8>, m: Seq<u8>) -> Seq<Seq<u8>> {
    Seq::new(files.len(), |k: int| page_json(id, k as nat, path, files[k], e, m))
}

/// A signed page's image URL ends with the query `?e=` and the signing
/// value `e`, then `&m=` and the signing value `m`, each escaped, before
/// the entry closes.
pub proof fn law_page_url_signed(id: Seq<u8>, k: nat, path: Seq<u8>, file: Seq<u8>, e: Seq<u8>, m: Seq<u8>)
    requires
        e.len() > 0 || m.len() > 0,
    ensures
        ({
            let pj = page_json(id, k, path, file, e, m);
            let end = "?e=".spec_bytes() + escaped(e) + "&m=".spec_bytes() + escaped(m) + "\"}}".spec_bytes();
            &&& pj.len() >= end.len()
            &&& pj.skip(pj.len() - end.len()) == end
        }),
{
    let pj = page_json(id, k, path, file, e, m);
    let end = "?e=".spec_bytes() + escaped(e) + "&m=".spec_bytes() + escaped(m) + "\"}}".spec_bytes();
    let pre = "{\"id\":\"page:".spec_bytes() + escaped(id) + ":".spec_bytes() + decimal(k) + "\",\"index\":".spec_bytes()
        + decimal(k) + ",\"image\":{\"kind\":\"url\",\"url\":\"".spec_bytes() + IMAGE_CDN.spec_bytes()
        + escaped(path) + escaped(file);
    assert(pj =~= pre + end);
    assert(pj.skip(pj.len() - end.len()) =~= end);
}

/// Every page of a chapter whose image JSON signs its images ends its
/// image URL with `?e=` and the JSON's `e` value, then `&m=` and its `m`
/// value.
pub proof fn law_json_pages_signed(id: Seq<u8>, json: Seq<u8>, k: int)
    requires
        json_array_after(json, "\"files\"".spec_bytes()) is Some,
        0 <= k < json_pages(id, json).len(),
        or_else(sl_value_of(json, "e".spec_bytes()), Seq::empty()).len() > 0 || or_else(
            sl_value_of(json, "m".spec_bytes()),
            Seq::empty(),
        ).len() > 0,
    ensures
        ({
            let pj = json_pages(id, json)[k];
            let end = "?e=".spec_bytes() + escaped(or_else(sl_value_of(json, "e".spec_bytes()), Seq::empty())) + "&m=".spec_bytes()
                + escaped(or_else(sl_value_of(json, "m".spec_bytes()), Seq::empty())) + "\"}}".spec_bytes();
            &&& pj.len() >= end.len()
            &&& pj.skip(pj.len() - end.len()) == end
        }),
{
    let files = page_files(json_array_after(json, "\"files\"".spec_bytes()).unwrap());
    let path = or_else(json_string_value(json, "path".spec_bytes()), Seq::empty());
    let e = or_else(sl_value_of(json, "e".spec_bytes()), Seq::empty());
    let m = or_else(sl_value_of(json, "m".spec_bytes()), Seq::empty());
    assert(json_pages(id, json)[k] == page_json(id, k as nat, path, files[k], e, m));
    law_page_url_signed(id, k as nat, path, files[k], e, m);
}

/// The units the signing query is written in.
pub open spec fn query_units(e: Seq<u8>, m: Seq<u8>) -> Seq<Seq<u8>> {
    if e.len() > 0 || m.len() > 0 {
        seq!["?e=".spec_bytes()] + byte_units(e, escape_fn()) + seq!["&m=".spec_bytes()] + byte_units(m, escape_fn())
    } else {
        Seq::empty()
    }
}

/// The units page `k` is written in.
pub open spec fn page_units(id: Seq<u8>, k: nat, path: Seq<u8>, file: Seq<u8>, e: Seq<u8>, m: Seq<u8>) -> Seq<Seq<u8>> {
    seq!["{\"id\":\"page:".spec_bytes()] + byte_units(id, escape_fn()) + seq![
        ":".spec_bytes(),
        decimal(k),
        "\",\"index\":".spec_bytes(),
        decimal(k),
        ",\"image\":{\"kind\":\"url\",\"url\":\"".spec_bytes(),
        IMAGE_CDN.spec_bytes(),
    ] + byte_units(path, escape_fn()) + byte_units(file, escape_fn()) + query_units(e, m) + seq!["\"}}".spec_bytes()]
}

/// The pages as the units they are written in.
pub open spec fn page_unit_items(id: Seq<u8>, files: Seq<Seq<u8>>, path: Seq<u8>, e: Seq<u8>, m: Seq<u8>) -> Seq<Seq<Seq<u8>>> {
    listed(Seq::new(files.len(), |k: int| page_units(id, k as nat, path, files[k], e, m)))
}

#[verifier::spinoff_prover]
#[verifier::rlimit(80)]
fn put_page(
    payload: &mut [u8],
    c: &mut usize,
    id: &[u8],
    k: usize,
    path: &[u8],
    file: &[u8],
    e: &[u8],
    m: &[u8],
) -> (ok: bool)
    requires
        *old(c) <= old(payload)@.len(),
    ensures
        appended(old(payload)@, *old(c) as int, item_unit(k > 0, page_json(id@, k as nat, path@, file@, e@, m@)), final(payload)@, *final(c) as int, ok),
        wrote_units(
            old(payload)@,
            *old(c) as int,
            item_units(k > 0, page_units(id@, k as nat, path@, file@, e@, m@)),
            final(payload)@,
            *final(c) as int,
            ok,
        ),
        final(payload)@.len() == old(payload)@.len(),
        *final(c) <= final(payload)@.len(),
{
    if e.len() > 0 || m.len() > 0 {
        let ps = [
            Piece::Text("{\"id\":\"page:"),
            Piece::Escaped(id),
            Piece::Text(":"),
            Piece::Number(k),
            Piece::Text("\",\"index\":"),
            Piece::Number(k),
            Piece::Text(",\"image\":{\"kind\":\"url\",\"url\":\""),
            Piece::Text(IMAGE_CDN),
            Piece::Escaped(path),
            Piece::Escaped(file),
            Piece::Text("?e="),
            Piece::Escaped(e),
            Piece::Text("&m="),
            Piece::Escaped(m),
            Piece::Text("\"}}"),
        ];
        proof {
            reveal_with_fuel(pieces_bytes, 16);
            assert(pieces_bytes(ps@) =~= page_json(id@, k as nat, path@, file@, e@, m@));
            reveal_with_fuel(pieces_units, 16);
            assert(pieces_units(ps@) =~= page_units(id@, k as nat, path@, file@, e@, m@));
        }
        put_item(payload, c, k == 0, &ps)
    } else {
        let ps = [
            Piece::Text("{\"id\":\"page:"),
            Piece::Escaped(id),
            Piece::Text(":"),
            Piece::Number(k),
            Piece::Text("\",\"index\":"),
            Piece::Number(k),
            Piece::Text(",\"image\":{\"kind\":\"url\",\"url\":\""),
            Piece::Text(IMAGE_CDN),
            Piece::Escaped(path),
            Piece::Escaped(file),
            Piece::Text("\"}}"),
        ];
        proof {
            reveal_with_fuel(pieces_bytes, 12);
            assert(pieces_bytes(ps@) =~= page_json(id@, k as nat, path@, file@, e@, m@));
            reveal_with_fuel(pieces_units, 12);
            assert(pieces_units(ps@) =~= page_units(id@, k as nat, path@, file@, e@, m@));
        }
        put_item(payload, c, k == 0, &ps)
    }
}

proof fn lemma_strings_step(d: Seq<u8>, pos: int, q: int, e: int)
    requires
        byte_from(d, pos, 34) == Some(q),
        string_close(d, q + 1) == Some(e),
        pos <= q < e < d.len(),
    ensures
        quoted_strings(d, pos) == seq![d.subrange(q + 1, e)] + quoted_strings(d, e + 1),
{
}

/// Writes a page for each file of the array `files`, stopping at the
/// first that does not fit; how many went out whole.
#[verifier::rlimit(40)]
fn write_pages(
    payload: &mut [u8],
    c: &mut usize,
    id: &[u8],
    files: &[u8],
    path: &[u8],
    e: &[u8],
    m: &[u8],
) -> (r: usize)
    requires
        *old(c) <= old(payload)@.len(),
    ensures
        appended(
            old(payload)@,
            *old(c) as int,
            joined(page_items(id@, page_files(files@), path@, e@, m@)),
            final(payload)@,
            *final(c) as int,
            r == page_files(files@).len(),
        ),
        joined_written(page_items(id@, page_files(files@), path@, e@, m@), r as int, *old(c) as int, *final(c) as int),
        wrote_units(
            old(payload)@,
            *old(c) as int,
            concat_units(page_unit_items(id@, page_files(files@), path@, e@, m@)),
            final(payload)@,
            *final(c) as int,
            r == page_files(files@).len(),
        ),
        r == whole_items(page_unit_items(id@, page_files(files@), path@, e@, m@), old(payload)@.len() - *old(c)),
        r < page_files(files@).len() ==> *old(c) + joined(
            page_items(id@, page_files(files@), path@, e@, m@).take(r + 1),
        ).len() > old(payload)@.len(),
        final(payload)@.len() == old(payload)@.len(),
        *final(c) <= final(payload)@.len(),
{
    let ghost d0 = payload@;
    let ghost c0 = *c as int;
    let ghost all = quoted_strings(files@, 0);
    let ghost names = page_files(files@);
    let ghost items = page_items(id@, names, path@, e@, m@);
    let ghost xs = page_unit_items(id@, names, path@, e@, m@);
    let mut pos: usize = 0;
    let mut k: usize = 0;
    proof {
        lemma_joined_empty(items);
        lemma_units_empty(xs, d0, c0);
        crate::json_utils::lemma_appended_start(d0, c0);
        assert(all.take(0) + quoted_strings(files@, 0) =~= all);
    }
    loop
        invariant_except_break
            all == all.take(k as int) + quoted_strings(files@, pos as int),
            k < MAX_PAGES,
        invariant
            d0 == old(payload)@,
            c0 == *old(c) as int,
            0 <= c0 <= d0.len(),
            payload@.len() == d0.len(),
            *c <= payload@.len(),
            all == quoted_strings(files@, 0),
            names == page_files(files@),
            items == page_items(id@, names, path@, e@, m@),
            pos <= files@.len(),
            k <= pos,
            k <= all.len(),
            k <= MAX_PAGES,
            appended(d0, c0, joined(items.take(k as int)), payload@, *c as int, true),
            xs == page_unit_items(id@, names, path@, e@, m@),
            wrote_units(d0, c0, concat_units(xs.take(k as int)), payload@, *c as int, true),
        ensures
            k == names.len(),
            appended(d0, c0, joined(items), payload@, *c as int, true),
            wrote_units(d0, c0, concat_units(xs), payload@, *c as int, true),
        decreases files@.len() - pos,
    {
        let q = match find_byte(files, pos, 34) {
            Some(v) => v,
            None => {
                proof {
                    assert(quoted_strings(files@, pos as int) =~= Seq::<Seq<u8>>::empty());
                    assert(all.take(k as int) + Seq::<Seq<u8>>::empty() =~= all.take(k as int));
                    assert(all.len() == k);
                    assert(names =~= all);
                    assert(items.take(k as int) =~= items);
                    assert(xs.take(k as int) =~= xs);
                }
                break;
            },
        };
        let en = match string_close_exec(files, q + 1) {
            Some(v) => v,
            None => {
                proof {
                    assert(quoted_strings(files@, pos as int) =~= Seq::<Seq<u8>>::empty());
                    assert(all.take(k as int) + Seq::<Seq<u8>>::empty() =~= all.take(k as int));
                    assert(all.len() == k);
                    assert(names =~= all);
                    assert(items.take(k as int) =~= items);
                    assert(xs.take(k as int) =~= xs);
                }
                break;
            },
        };
        proof {
            lemma_strings_step(files@, pos as int, q as int, en as int);
        }
        let file = slice_subrange(files, q + 1, en);
        let ghost j = k as int;
        proof {
            assert(all[j] == file@) by {
                assert((all.take(j) + quoted_strings(files@, pos as int))[j] == file@);
            }
            assert(names[j] == file@);
            assert(items[j] == page_json(id@, j as nat, path@, file@, e@, m@));
            assert(xs[j] == item_units(j > 0, page_units(id@, j as nat, path@, file@, e@, m@)));
        }
        let ghost dm = payload@;
        let ghost cm = *c as int;
        let good = put_page(payload, c, id, k, path, file, e, m);
        if !good {
            proof {
                lemma_item_fail(items, j, d0, c0, dm, cm, payload@, *c as int);
                crate::pieces::lemma_joined_step(items, j);
                lemma_units_item_fail(xs, j, d0, c0, dm, cm, payload@, *c as int);
                assert(xs.take(j + 1).drop_last() =~= xs.take(j));
                crate::units::lemma_cat_concat(concat_units(xs.take(j)), xs[j]);
                crate::units::lemma_fitting_full(concat_units(xs.take(j)), d0.len() - c0);
                lemma_whole_items_at(xs, d0.len() - c0, j);
            }
            return k;
        }
        proof {
            lemma_item_ok(items, j, d0, c0, dm, cm, payload@, *c as int);
            lemma_units_item_ok(xs, j, d0, c0, dm, cm, payload@, *c as int);
            assert(all.take(j + 1) + quoted_strings(files@, en + 1) =~= all) by {
                assert(all.take(j + 1) =~= all.take(j).push(file@));
            }
        }
        k = k + 1;
        pos = en + 1;
        if k >= MAX_PAGES {
            proof {
                assert(names =~= all.take(MAX_PAGES as int));
                assert(names.len() == k);
                assert(items.take(k as int) =~= items);
                assert(xs.take(k as int) =~= xs);
            }
            break;
        }
    }
    proof {
        lemma_whole_items_at(xs, d0.len() - c0, k as int);
    }
    k
}

/// Why a reader page gives no page list.
#[derive(Clone, Copy, PartialEq, Eq, Structural)]
pub enum PagesError {
    /// No image JSON was found.
    NoImageData,
    /// The image JSON has no `files` array.
    NoFiles,
    /// No page went out.
    NoPages,
    /// The list does not fit.
    Overflow,
}

/// The pages of chapter `id` listed by the image JSON `json`.
pub open spec fn json_pages(id: Seq<u8>, json: Seq<u8>) -> Seq<Seq<u8>> {
    page_items(
        id,
        page_files(json_array_after(json, "\"files\"".spec_bytes()).unwrap()),
        or_else(json_string_value(json, "path".spec_bytes()), Seq::empty()),
        or_else(sl_value_of(json, "e".spec_bytes()), Seq::empty()),
        or_else(sl_value_of(json, "m".spec_bytes()), Seq::empty()),
    )
}

/// The page list of chapter `id` from the image JSON `json`, when it all
/// fits.
pub open spec fn pages_json(id: Seq<u8>, json: Seq<u8>) -> Seq<u8> {
    pages_head(id) + joined(json_pages(id, json)) + "]}".spec_bytes()
}

/// The pages of chapter `id` listed by the image JSON `json`, as the
/// units they are written in.
pub open spec fn json_page_units(id: Seq<u8>, json: Seq<u8>) -> Seq<Seq<Seq<u8>>> {
    page_unit_items(
        id,
        page_files(json_array_after(json, "\"files\"".spec_bytes()).unwrap()),
        or_else(json_string_value(json, "path".spec_bytes()), Seq::empty()),
        or_else(sl_value_of(json, "e".spec_bytes()), Seq::empty()),
        or_else(sl_value_of(json, "m".spec_bytes()), Seq::empty()),
    )
}

/// The page list of chapter `id` from the image JSON `json` written into
/// `cap` bytes: its opening, the pages up to the first unit that does not
/// fit, and its closing; no list where the opening does not fit, where no
/// page fits whole, or where the closing does not fit.
pub open spec fn pages_answer(id: Seq<u8>, json: Seq<u8>, cap: nat) -> Result<Seq<u8>, PagesError> {
    let head = pages_head(id);
    let xs = json_page_units(id, json);
    if head.len() > cap {
        Err(PagesError::Overflow)
    } else if whole_items(xs, cap - head.len()) == 0 {
        Err(PagesError::NoPages)
    } else {
        match list_written(head, concat_units(xs), "]}".spec_bytes(), cap as int) {
            Some(t) => Ok(t),
            None => Err(PagesError::Overflow),
        }
    }
}

/// The image JSON of the reader page `html`, looked for in the page with
/// its script's escapes undone into `scratch`, then in the page itself.
pub fn image_json<'a>(html: &'a [u8], scratch: &'a mut [u8]) -> (r: Option<&'a [u8]>)
    requires
        html@.len() < i64::MAX,
        old(scratch)@.len() < i64::MAX,
    ensures
        final(scratch)@.len() == old(scratch)@.len(),
        match r {
            Some(j) => image_json_of(html@, old(scratch)@.len()) == Some(j@) && j@.len() < i64::MAX,
            None => image_json_of(html@, old(scratch)@.len()) is None,
        },
{
    let ghost cap = scratch@.len();
    let decoded = unescape_js_to(html, scratch);
    proof {
        lemma_unescape_len(html@, 0, 0, cap as int);
    }
    match find_img_json(decoded) {
        Some(j) => {
            proof {
                lemma_img_json_len(decoded@);
            }
            Some(j)
        },
        None => {
            proof {
                lemma_img_json_len(html@);
            }
            find_img_json(html)
        },
    }
}

/// The image JSON of a text is a part of it.
proof fn lemma_img_json_len(t: Seq<u8>)
    ensures
        img_json_of(t) matches Some(j) ==> j.len() <= t.len(),
{
    if let Some(j) = img_json_of(t) {
        let f = crate::json_utils::find(t, "\"files\"".spec_bytes()).unwrap();
        let s = crate::sources::manhuagui::back_to_brace(t, f);
        crate::json_utils::lemma_find_from_spec(t, "\"files\"".spec_bytes(), 0);
        crate::sources::manhuagui::lemma_back_to_brace(t, f);
        crate::sources::manhuagui::lemma_value_end_bounds(t, s, false, false, 0);
    }
}

/// Builds the page list of chapter `id` from the image JSON `json` of its
/// reader page. Where the pages do not all fit, the closing still follows
/// those that went out; when none went out there is no list.
#[verifier::spinoff_prover]
#[verifier::rlimit(80)]
pub fn json_pages_payload(id: &[u8], json: &[u8], payload: &mut [u8]) -> (r: Result<usize, PagesError>)
    requires
        json@.len() < i64::MAX,
    ensures
        final(payload)@.len() == old(payload)@.len(),
        json_array_after(json@, "\"files\"".spec_bytes()) is None <==> r == Err::<usize, PagesError>(PagesError::NoFiles),
        json_array_after(json@, "\"files\"".spec_bytes()) is Some ==> match r {
            Ok(n) => n <= old(payload)@.len() && pages_answer(id@, json@, old(payload)@.len()) == Ok::<
                Seq<u8>,
                PagesError,
            >(final(payload)@.take(n as int)),
            Err(PagesError::NoPages) => pages_head(id@).len() <= old(payload)@.len() && (json_pages(id@, json@).len() == 0
                || pages_head(id@).len() + json_pages(id@, json@)[0].len() > old(payload)@.len()),
            Err(PagesError::Overflow) => pages_json(id@, json@).len() > old(payload)@.len(),
            Err(_) => false,
        },
        json_array_after(json@, "\"files\"".spec_bytes()) is Some && r is Err ==> pages_answer(
            id@,
            json@,
            old(payload)@.len(),
        ) == Err::<Seq<u8>, PagesError>(r->Err_0),
        json_array_after(json@, "\"files\"".spec_bytes()) is Some && json_pages(id@, json@).len() > 0
            && pages_json(id@, json@).len() <= old(payload)@.len() ==> r == Ok::<usize, PagesError>(
            pages_json(id@, json@).len() as usize,
        ) && final(payload)@.take(pages_json(id@, json@).len() as int) == pages_json(id@, json@),
{
    let files = match extract_json_array(json, "\"files\"".as_bytes()) {
        Some(f) => f,
        None => {
            return Err(PagesError::NoFiles);
        },
    };
    proof {
        reveal_strlit("");
    }
    let path = match extract_json_string(json, "path".as_bytes()) {
        Some(v) => v,
        None => "".as_bytes(),
    };
    let e = match extract_sl_value(json, "e".as_bytes()) {
        Some(v) => v,
        None => "".as_bytes(),
    };
    let m = match extract_sl_value(json, "m".as_bytes()) {
        Some(v) => v,
        None => "".as_bytes(),
    };
    let ghost items = json_pages(id@, json@);
    let ghost xs = json_page_units(id@, json@);
    let ghost head = pages_head(id@);
    let ghost d0 = payload@;
    let mut c: usize = 0;
    let ps = [Piece::Text("{\"chapterId\":\""), Piece::Escaped(id), Piece::Text("\",\"pages\":[")];
    proof {
        reveal_with_fuel(pieces_bytes, 4);
        assert(pieces_bytes(ps@) =~= head);
        assert(pages_json(id@, json@) =~= head + joined(items) + "]}".spec_bytes());
    }
    if !put_pieces(payload, &mut c, &ps) {
        proof {
            assert(head.len() > d0.len());
        }
        return Err(PagesError::Overflow);
    }
    let ghost dh = payload@;
    let ghost ch = c as int;
    let written = write_pages(payload, &mut c, id, files, path, e, m);
    proof {
        assert(xs == page_unit_items(id@, page_files(files@), path@, e@, m@));
        assert(ch == head.len());
    }
    let ghost dc = payload@;
    let ghost cc = c as int;
    if written == 0 {
        proof {
            if items.len() > 0 {
                crate::pieces::lemma_joined_step(items, 0);
                lemma_joined_empty(items);
                assert(item_unit(false, items[0]) =~= items[0]);
                assert(joined(items.take(1)) =~= items[0]);
            }
        }
        return Err(PagesError::NoPages);
    }
    let okf = put_str(payload, &mut c, "]}");
    proof {
        lemma_list_written(d0, head, dh, ch, concat_units(xs), dc, cc, written == items.len(), "]}".spec_bytes(), payload@, c as int, okf);
    }
    if !okf {
        proof {
            if written == items.len() {
                assert(cc == ch + joined(items).len());
            } else {
                lemma_joined_prefix(items, written as int + 1);
                lemma_joined_prefix(items, written as int);
            }
        }
        return Err(PagesError::Overflow);
    }
    proof {
        lemma_list_text(items, written as int, head, "]}".spec_bytes(), d0, dh, ch, dc, cc, payload@, c as int);
        if pages_json(id@, json@).len() <= d0.len() {
            if written < items.len() {
                assert(cc < ch + joined(items).len());
                assert(false);
            }
        }
    }
    Ok(c)
}

} // verus!
