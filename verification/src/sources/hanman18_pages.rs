//! The HANMAN18 reader page: its `slides_p_path` array holds each image's
//! URL in Base64; the page list is built from them.
use vstd::prelude::*;
use vstd::slice::slice_subrange;
use vstd::string::StringSliceAdditionalSpecFns;
use crate::json_utils::{appended, decimal, escaped, find, find_subslice, put_str, write_bytes};
use crate::units::wrote_units;
use crate::pieces::{
    concat_units, item_units, listed, lemma_units_empty, lemma_units_item_fail, lemma_units_item_ok, list_written,
    lemma_list_written, lemma_list_head_fail, pieces_units,
    item_unit, joined, joined_written, lemma_item_fail, lemma_item_ok, lemma_joined_empty,
    lemma_joined_prefix, lemma_list_text, pieces_bytes, put_item, put_pieces, Piece,
};
use crate::sources::hanman18::{base64_decode, base64_of, BASE_URL};

verus! {

/// The first `b` at or after `i`.
pub open spec fn byte_from(d: Seq<u8>, i: int, b: u8) -> Option<int>
    decreases d.len() - i,
{
    if i < 0 || i >= d.len() {
        None
    } else if d[i] == b {
        Some(i)
    } else {
        byte_from(d, i + 1, b)
    }
}

/// Where the brackets opened before `p` (`depth` of them) close: just
/// past the `]` that brings the count to zero, or the end of the text.
/// `None` when the count would pass 255.
pub open spec fn bracket_end(d: Seq<u8>, p: int, depth: int) -> Option<int>
    decreases d.len() - p,
{
    if p < 0 || p >= d.len() || depth <= 0 {
        Some(p)
    } else if d[p] == 91 {
        if depth + 1 > 255 {
            None
        } else {
            bracket_end(d, p + 1, depth + 1)
        }
    } else if d[p] == 93 {
        bracket_end(d, p + 1, depth - 1)
    } else {
        bracket_end(d, p + 1, depth)
    }
}

/// The runs of text between pairs of quotes from `pos`.
pub open spec fn quoted_runs(d: Seq<u8>, pos: int) -> Seq<Seq<u8>>
    decreases d.len() - pos,
{
    match byte_from(d, pos, 34) {
        None => Seq::empty(),
        Some(q) => match byte_from(d, q + 1, 34) {
            None => Seq::empty(),
            Some(e) => if e < pos || e >= d.len() {
                Seq::empty()
            } else {
                seq![d.subrange(q + 1, e)] + quoted_runs(d, e + 1)
            },
        },
    }
}

/// The image URL a decoded path stands for: a path starting with `/` gets
/// the site in front when that fits in `scap` bytes.
pub open spec fn image_url(t: Seq<u8>, scap: nat) -> Seq<u8> {
    if t.len() > 0 && t[0] == 47 && BASE_URL.spec_bytes().len() + t.len() <= scap {
        BASE_URL.spec_bytes() + t
    } else {
        t
    }
}

/// A run stands for an image when it is not empty and decodes from
/// Base64 into at most `bcap` bytes.
pub open spec fn accepted(r: Seq<u8>, bcap: nat) -> bool {
    r.len() > 0 && base64_of(r) is Some && base64_of(r).unwrap().len() <= bcap
}

/// The image URLs of the runs: one for each accepted run, in order; the
/// others are passed over.
pub open spec fn image_urls(runs: Seq<Seq<u8>>, bcap: nat, scap: nat) -> Seq<Seq<u8>>
    decreases runs.len(),
{
    if runs.len() == 0 {
        Seq::empty()
    } else {
        let rest = image_urls(runs.drop_last(), bcap, scap);
        let r = runs.last();
        if accepted(r, bcap) {
            rest.push(image_url(base64_of(r).unwrap(), scap))
        } else {
            rest
        }
    }
}

proof fn lemma_image_urls_concat(a: Seq<Seq<u8>>, b: Seq<Seq<u8>>, bcap: nat, scap: nat)
    ensures
        image_urls(a + b, bcap, scap) == image_urls(a, bcap, scap) + image_urls(b, bcap, scap),
    decreases b.len(),
{
    let ia = image_urls(a, bcap, scap);
    if b.len() == 0 {
        assert(a + b =~= a);
        assert(ia + image_urls(b, bcap, scap) =~= ia);
    } else {
        lemma_image_urls_concat(a, b.drop_last(), bcap, scap);
        assert((a + b).drop_last() =~= a + b.drop_last());
        assert((a + b).last() == b.last());
        let ib = image_urls(b.drop_last(), bcap, scap);
        let r = b.last();
        if accepted(r, bcap) {
            let x = image_url(base64_of(r).unwrap(), scap);
            assert((ia + ib).push(x) =~= ia + ib.push(x));
        }
    }
}

/// Page `k`, its image at `url`.
pub open spec fn page_item(k: nat, url: Seq<u8>) -> Seq<u8> {
    "{\"id\":\"page:".spec_bytes() + decimal(k) + "\",\"index\":\"".spec_bytes() + decimal(k)
        + "\",\"image\":{\"kind\":\"url\",\"url\":\"".spec_bytes() + escaped(url) + "\"}}".spec_bytes()
}

pub open spec fn page_items(urls: Seq<Seq<u8>>) -> Seq<Seq<u8>> {
    Seq::new(urls.len(), |k: int| page_item(k as nat, urls[k]))
}

/// The units page `k` is written in.
pub open spec fn page_units(k: nat, url: Seq<u8>) -> Seq<Seq<u8>> {
    seq![
        "{\"id\":\"page:".spec_bytes(),
        decimal(k),
        "\",\"index\":\"".spec_bytes(),
        decimal(k),
        "\",\"image\":{\"kind\":\"url\",\"url\":\"".spec_bytes(),
    ] + crate::units::byte_units(url, crate::json_utils::escape_fn()) + seq!["\"}}".spec_bytes()]
}

/// The pages as the units they are written in.
pub open spec fn page_unit_items(urls: Seq<Seq<u8>>) -> Seq<Seq<Seq<u8>>> {
    listed(Seq::new(urls.len(), |k: int| page_units(k as nat, urls[k])))
}

pub const MARKER: &'static str = "slides_p_path";

/// Where the image array of a reader page lies: from its `[` to just past
/// its `]`, or the end of the page.
pub enum ArraySpan {
    Found(int, int),
    NoMarker,
    NoBracket,
    TooDeep,
}

pub open spec fn array_span(html: Seq<u8>) -> ArraySpan {
    match find(html, MARKER.spec_bytes()) {
        None => ArraySpan::NoMarker,
        Some(m) => match byte_from(html, m + MARKER.spec_bytes().len(), 91) {
            None => ArraySpan::NoBracket,
            Some(a) => match bracket_end(html, a + 1, 1) {
                None => ArraySpan::TooDeep,
                Some(e) => ArraySpan::Found(a, e),
            },
        },
    }
}

/// The page URLs of a reader page, for buffers of `bcap` and `scap` bytes.
pub open spec fn reader_urls(html: Seq<u8>, bcap: nat, scap: nat) -> Seq<Seq<u8>> {
    match array_span(html) {
        ArraySpan::Found(a, e) => image_urls(quoted_runs(html.subrange(a, e), 1), bcap, scap),
        _ => Seq::empty(),
    }
}

/// The page list of chapter `rest` when everything fits.
pub open spec fn pages_json(html: Seq<u8>, rest: Seq<u8>, bcap: nat, scap: nat) -> Seq<u8> {
    "{\"chapterId\":\"chapter:".spec_bytes() + escaped(rest) + "\",\"pages\":[".spec_bytes() + joined(
        page_items(reader_urls(html, bcap, scap)),
    ) + "]}".spec_bytes()
}

/// Why a reader page gives no page list.
#[derive(Clone, Copy, PartialEq, Eq, Structural)]
pub enum PagesError {
    /// There is no `slides_p_path`.
    NoMarker,
    /// No `[` follows it.
    NoBracket,
    /// The list does not fit.
    Overflow,
    /// The array nests more than 255 brackets deep.
    TooDeep,
}

/// Position of the first `b` at or after `i`.
pub fn find_byte(d: &[u8], i: usize, b: u8) -> (r: Option<usize>)
    requires
        i <= d@.len() + 1,
    ensures
        match r {
            Some(q) => byte_from(d@, i as int, b) == Some(q as int) && i <= q < d.len() && d@[q as int] == b,
            None => byte_from(d@, i as int, b) is None,
        },
{
    let mut p = i;
    while p < d.len()
        invariant
            i <= p,
            byte_from(d@, i as int, b) == byte_from(d@, p as int, b),
        decreases d@.len() - p,
    {
        if d[p] == b {
            return Some(p);
        }
        p = p + 1;
    }
    None
}

fn find_bracket_end(d: &[u8], start: usize) -> (r: Option<usize>)
    requires
        start <= d@.len(),
    ensures
        match r {
            Some(e) => bracket_end(d@, start as int, 1) == Some(e as int) && start <= e <= d@.len(),
            None => bracket_end(d@, start as int, 1) is None,
        },
{
    let mut p = start;
    let mut depth: u8 = 1;
    while p < d.len() && depth > 0
        invariant
            start <= p <= d@.len(),
            bracket_end(d@, start as int, 1) == bracket_end(d@, p as int, depth as int),
        decreases d@.len() - p,
    {
        if d[p] == 91 {
            if depth == 255 {
                return None;
            }
            depth = depth + 1;
        } else if d[p] == 93 {
            depth = depth - 1;
        }
        p = p + 1;
    }
    Some(p)
}

fn put_page(payload: &mut [u8], c: &mut usize, k: usize, url: &[u8]) -> (ok: bool)
    requires
        *old(c) <= old(payload)@.len(),
    ensures
        appended(old(payload)@, *old(c) as int, item_unit(k > 0, page_item(k as nat, url@)), final(payload)@, *final(c) as int, ok),
        wrote_units(old(payload)@, *old(c) as int, item_units(k > 0, page_units(k as nat, url@)), final(payload)@, *final(c) as int, ok),
        final(payload)@.len() == old(payload)@.len(),
        *final(c) <= final(payload)@.len(),
{
    let ps = [
        Piece::Text("{\"id\":\"page:"),
        Piece::Number(k),
        Piece::Text("\",\"index\":\""),
        Piece::Number(k),
        Piece::Text("\",\"image\":{\"kind\":\"url\",\"url\":\""),
        Piece::Escaped(url),
        Piece::Text("\"}}"),
    ];
    proof {
        reveal_with_fuel(pieces_bytes, 8);
        assert(pieces_bytes(ps@) =~= page_item(k as nat, url@));
        reveal_with_fuel(pieces_units, 8);
        assert(pieces_units(ps@) =~= page_units(k as nat, url@));
    }
    put_item(payload, c, k == 0, &ps)
}

proof fn lemma_runs_step(d: Seq<u8>, pos: int, q: int, e: int)
    requires
        byte_from(d, pos, 34) == Some(q),
        byte_from(d, q + 1, 34) == Some(e),
        pos <= q < e < d.len(),
    ensures
        quoted_runs(d, pos) == seq![d.subrange(q + 1, e)] + quoted_runs(d, e + 1),
{
}

/// Writes the site's address and then `t` at the start of `scratch`; the
/// length when both fit.
fn write_site_url(scratch: &mut [u8], t: &[u8]) -> (r: Option<usize>)
    ensures
        final(scratch)@.len() == old(scratch)@.len(),
        match r {
            Some(n) => BASE_URL.spec_bytes().len() + t@.len() <= old(scratch)@.len() && n
                == BASE_URL.spec_bytes().len() + t@.len() && final(scratch)@.take(n as int)
                == BASE_URL.spec_bytes() + t@,
            None => BASE_URL.spec_bytes().len() + t@.len() > old(scratch)@.len(),
        },
{
    let ghost s0 = scratch@;
    let base = BASE_URL.as_bytes();
    let mut n: usize = 0;
    if !write_bytes(scratch, &mut n, base) {
        return None;
    }
    if !write_bytes(scratch, &mut n, t) {
        return None;
    }
    proof {
        crate::json_utils::lemma_splice_concat(s0, 0, base@, t@);
        assert(scratch@.take(n as int) =~= base@ + t@);
    }
    Some(n)
}

/// The image URL of `run`: decoded into `b64_out` and, for a path, put
/// after the site's address in `scratch` when it fits there. `None` when
/// the run is passed over; otherwise the URL's length and whether it lies
/// in `scratch` (else at the start of `b64_out`).
fn decode_run(run: &[u8], b64_out: &mut [u8], scratch: &mut [u8]) -> (r: Option<(usize, bool)>)
    ensures
        final(b64_out)@.len() == old(b64_out)@.len(),
        final(scratch)@.len() == old(scratch)@.len(),
        match r {
            None => !accepted(run@, old(b64_out)@.len()),
            Some((n, in_scratch)) => accepted(run@, old(b64_out)@.len()) && if in_scratch {
                n <= final(scratch)@.len() && final(scratch)@.take(n as int) == image_url(
                    base64_of(run@).unwrap(),
                    old(scratch)@.len(),
                )
            } else {
                n <= final(b64_out)@.len() && final(b64_out)@.take(n as int) == image_url(
                    base64_of(run@).unwrap(),
                    old(scratch)@.len(),
                )
            },
        },
{
    if run.len() == 0 {
        return None;
    }
    let n = match base64_decode(run, b64_out) {
        Some(n) => n,
        None => {
            return None;
        },
    };
    if n > 0 && b64_out[0] == 47 {
        let decoded = slice_subrange(b64_out, 0, n);
        match write_site_url(scratch, decoded) {
            Some(m) => {
                return Some((m, true));
            },
            None => {},
        }
    }
    Some((n, false))
}

/// Writes a page for each image of the array `data`, stopping at the
/// first that does not fit; how many went out whole.
fn write_pages(
    payload: &mut [u8],
    c: &mut usize,
    data: &[u8],
    b64_out: &mut [u8],
    scratch: &mut [u8],
) -> (r: usize)
    requires
        *old(c) <= old(payload)@.len(),
    ensures
        appended(
            old(payload)@,
            *old(c) as int,
            joined(page_items(image_urls(quoted_runs(data@, 1), old(b64_out)@.len(), old(scratch)@.len()))),
            final(payload)@,
            *final(c) as int,
            r == image_urls(quoted_runs(data@, 1), old(b64_out)@.len(), old(scratch)@.len()).len(),
        ),
        joined_written(
            page_items(image_urls(quoted_runs(data@, 1), old(b64_out)@.len(), old(scratch)@.len())),
            r as int,
            *old(c) as int,
            *final(c) as int,
        ),
        wrote_units(
            old(payload)@,
            *old(c) as int,
            concat_units(page_unit_items(image_urls(quoted_runs(data@, 1), old(b64_out)@.len(), old(scratch)@.len()))),
            final(payload)@,
            *final(c) as int,
            r == image_urls(quoted_runs(data@, 1), old(b64_out)@.len(), old(scratch)@.len()).len(),
        ),
        final(payload)@.len() == old(payload)@.len(),
        *final(c) <= final(payload)@.len(),
        final(b64_out)@.len() == old(b64_out)@.len(),
        final(scratch)@.len() == old(scratch)@.len(),
{
    let ghost d0 = payload@;
    let ghost c0 = *c as int;
    let ghost bcap = b64_out@.len();
    let ghost scap = scratch@.len();
    let ghost runs = quoted_runs(data@, 1);
    let ghost urls = image_urls(runs, bcap, scap);
    let ghost items = page_items(urls);
    let ghost xs = page_unit_items(urls);
    let mut pos: usize = if data.len() >= 1 { 1 } else { data.len() };
    let ghost start = pos as int;
    let mut page_idx: usize = 0;
    let ghost mut seen: Seq<Seq<u8>> = Seq::empty();
    proof {
        lemma_joined_empty(items);
        lemma_units_empty(xs, d0, c0);
        crate::json_utils::lemma_appended_start(d0, c0);
        if data@.len() == 0 {
            assert(quoted_runs(data@, 1) =~= Seq::<Seq<u8>>::empty());
            assert(quoted_runs(data@, 0) =~= Seq::<Seq<u8>>::empty());
        }
        assert(seen + quoted_runs(data@, start) =~= runs);
    }
    loop
        invariant_except_break
            runs == seen + quoted_runs(data@, pos as int),
        invariant
            d0 == old(payload)@,
            c0 == *old(c) as int,
            0 <= c0 <= d0.len(),
            payload@.len() == d0.len(),
            *c <= payload@.len(),
            b64_out@.len() == bcap,
            scratch@.len() == scap,
            bcap == old(b64_out)@.len(),
            scap == old(scratch)@.len(),
            runs == quoted_runs(data@, 1),
            quoted_runs(data@, 1) == quoted_runs(data@, start),
            urls == image_urls(runs, bcap, scap),
            items == page_items(urls),
            start <= pos <= data@.len() + 1,
            page_idx == image_urls(seen, bcap, scap).len(),
            page_idx <= seen.len(),
            seen.len() <= pos,
            image_urls(seen, bcap, scap) == urls.take(page_idx as int),
            page_idx <= urls.len(),
            appended(d0, c0, joined(items.take(page_idx as int)), payload@, *c as int, true),
            xs == page_unit_items(urls),
            wrote_units(d0, c0, concat_units(xs.take(page_idx as int)), payload@, *c as int, true),
        ensures
            page_idx == urls.len(),
            appended(d0, c0, joined(items), payload@, *c as int, true),
            wrote_units(d0, c0, concat_units(xs), payload@, *c as int, true),
        decreases data@.len() + 1 - pos,
    {
        let q = match find_byte(data, pos, 34) {
            Some(v) => v,
            None => {
                proof {
                    assert(quoted_runs(data@, pos as int) =~= Seq::<Seq<u8>>::empty());
                    assert(seen + quoted_runs(data@, pos as int) =~= seen);
                    assert(urls.take(page_idx as int) =~= urls);
                    assert(items.take(page_idx as int) =~= items);
                    assert(xs.take(page_idx as int) =~= xs);
                }
                break;
            },
        };
        let e = match find_byte(data, q + 1, 34) {
            Some(v) => v,
            None => {
                proof {
                    assert(quoted_runs(data@, pos as int) =~= Seq::<Seq<u8>>::empty());
                    assert(seen + quoted_runs(data@, pos as int) =~= seen);
                    assert(urls.take(page_idx as int) =~= urls);
                    assert(items.take(page_idx as int) =~= items);
                    assert(xs.take(page_idx as int) =~= xs);
                }
                break;
            },
        };
        proof {
            lemma_runs_step(data@, pos as int, q as int, e as int);
        }
        let run = slice_subrange(data, q + 1, e);
        let ghost seen2 = seen.push(run@);
        let ghost rest = quoted_runs(data@, e + 1);
        proof {
            assert(seen2 + rest =~= seen + quoted_runs(data@, pos as int));
            lemma_image_urls_concat(seen2, rest, bcap, scap);
            assert(seen2.drop_last() =~= seen);
            assert(urls.take(image_urls(seen2, bcap, scap).len() as int) =~= image_urls(seen2, bcap, scap));
        }
        let ghost dm = payload@;
        let ghost cm = *c as int;
        match decode_run(run, b64_out, scratch) {
            None => {},
            Some((n, in_scratch)) => {
                let url: &[u8] = if in_scratch {
                    slice_subrange(scratch, 0, n)
                } else {
                    slice_subrange(b64_out, 0, n)
                };
                let ghost k = page_idx as int;
                proof {
                    assert(image_urls(seen2, bcap, scap) == image_urls(seen, bcap, scap).push(url@));
                    assert(urls[k] == url@);
                    assert(items[k] == page_item(k as nat, url@));
                    assert(xs[k] == item_units(k > 0, page_units(k as nat, url@)));
                }
                let good = put_page(payload, c, page_idx, url);
                if !good {
                    proof {
                        lemma_item_fail(items, k, d0, c0, dm, cm, payload@, *c as int);
                        lemma_units_item_fail(xs, k, d0, c0, dm, cm, payload@, *c as int);
                    }
                    return page_idx;
                }
                proof {
                    lemma_item_ok(items, k, d0, c0, dm, cm, payload@, *c as int);
                    lemma_units_item_ok(xs, k, d0, c0, dm, cm, payload@, *c as int);
                }
                page_idx = page_idx + 1;
            },
        }
        proof {
            seen = seen2;
        }
        pos = e + 1;
    }
    page_idx
}


/// The opening of the page list of chapter `rest`.
pub open spec fn pages_head(rest: Seq<u8>) -> Seq<u8> {
    "{\"chapterId\":\"chapter:".spec_bytes() + escaped(rest) + "\",\"pages\":[".spec_bytes()
}

/// The page list of chapter `rest` written into `cap` bytes: its opening,
/// the pages up to the first unit that does not fit, and its closing.
pub open spec fn pages_answer(html: Seq<u8>, rest: Seq<u8>, bcap: nat, scap: nat, cap: nat) -> Option<Seq<u8>> {
    list_written(pages_head(rest), concat_units(page_unit_items(reader_urls(html, bcap, scap))), "]}".spec_bytes(), cap as int)
}

/// Builds the page list of chapter `rest` from its reader page `html`,
/// decoding each image into `b64_out` and building site URLs in
/// `scratch`. The array is looked up first; then the opening, a page per
/// image as far as they fit, and the closing are written. Where the pages
/// do not all fit, the closing still follows those that went out.
pub fn pages_payload(
    html: &[u8],
    rest: &[u8],
    b64_out: &mut [u8],
    scratch: &mut [u8],
    payload: &mut [u8],
) -> (r: Result<usize, PagesError>)
    ensures
        final(payload)@.len() == old(payload)@.len(),
        final(b64_out)@.len() == old(b64_out)@.len(),
        final(scratch)@.len() == old(scratch)@.len(),
        array_span(html@) is NoMarker ==> r == Err::<usize, PagesError>(PagesError::NoMarker),
        array_span(html@) is NoBracket ==> r == Err::<usize, PagesError>(PagesError::NoBracket),
        array_span(html@) is TooDeep ==> r == Err::<usize, PagesError>(PagesError::TooDeep),
        array_span(html@) is Found ==> match r {
            Ok(n) => n <= old(payload)@.len() && pages_answer(html@, rest@, old(b64_out)@.len(), old(scratch)@.len(), old(payload)@.len())
                == Some(final(payload)@.take(n as int)),
            Err(e) => e == PagesError::Overflow && pages_json(
                html@,
                rest@,
                old(b64_out)@.len(),
                old(scratch)@.len(),
            ).len() > old(payload)@.len() && pages_answer(html@, rest@, old(b64_out)@.len(), old(scratch)@.len(), old(payload)@.len())
                is None,
        },
        array_span(html@) is Found && pages_json(
            html@,
            rest@,
            old(b64_out)@.len(),
            old(scratch)@.len(),
        ).len() <= old(payload)@.len() ==> r == Ok::<usize, PagesError>(
            pages_json(html@, rest@, old(b64_out)@.len(), old(scratch)@.len()).len() as usize,
        ) && final(payload)@.take(
            pages_json(html@, rest@, old(b64_out)@.len(), old(scratch)@.len()).len() as int,
        ) == pages_json(html@, rest@, old(b64_out)@.len(), old(scratch)@.len()),
{
    let ghost bcap = b64_out@.len();
    let ghost scap = scratch@.len();
    let marker = MARKER.as_bytes();
    let hl: usize = html.len();
    let m = match find_subslice(html, marker) {
        Some(m) => m,
        None => {
            return Err(PagesError::NoMarker);
        },
    };
    assert(m + marker@.len() <= hl);
    let a = match find_byte(html, m + marker.len(), 91) {
        Some(a) => a,
        None => {
            return Err(PagesError::NoBracket);
        },
    };
    let e = match find_bracket_end(html, a + 1) {
        Some(e) => e,
        None => {
            return Err(PagesError::TooDeep);
        },
    };
    let data = slice_subrange(html, a, e);
    let ghost items = page_items(reader_urls(html@, bcap, scap));
    let ghost xs = page_unit_items(reader_urls(html@, bcap, scap));
    let ghost head = pages_head(rest@);
    let ghost d0 = payload@;
    let mut c: usize = 0;
    let ps = [
        Piece::Text("{\"chapterId\":\"chapter:"),
        Piece::Escaped(rest),
        Piece::Text("\",\"pages\":["),
    ];
    proof {
        reveal_with_fuel(pieces_bytes, 4);
        assert(pieces_bytes(ps@) =~= head);
    }
    if !put_pieces(payload, &mut c, &ps) {
        proof {
            assert(pages_json(html@, rest@, bcap, scap) =~= head + joined(items) + "]}".spec_bytes());
            lemma_list_head_fail(d0, head, payload@, c as int, concat_units(xs), "]}".spec_bytes());
        }
        return Err(PagesError::Overflow);
    }
    let ghost dh = payload@;
    let ghost ch = c as int;
    let written = write_pages(payload, &mut c, data, b64_out, scratch);
    let ghost dc = payload@;
    let ghost cc = c as int;
    let okf = put_str(payload, &mut c, "]}");
    proof {
        lemma_list_written(d0, head, dh, ch, concat_units(xs), dc, cc, written == items.len(), "]}".spec_bytes(), payload@, c as int, okf);
    }
    if !okf {
        proof {
            assert(pages_json(html@, rest@, bcap, scap) =~= head + joined(items) + "]}".spec_bytes());
            if written == items.len() {
                assert(cc == ch + joined(items).len());
            } else {
                lemma_joined_prefix(items, written as int + 1);
                lemma_joined_prefix(items, written as int);
            }
        }
        return Err(PagesError::Overflow);
    }
    proof {
        assert(pages_json(html@, rest@, bcap, scap) =~= head + joined(items) + "]}".spec_bytes());
        lemma_list_text(
            items,
            written as int,
            head,
            "]}".spec_bytes(),
            d0,
            dh,
            ch,
            dc,
            cc,
            payload@,
            c as int,
        );
        if pages_json(html@, rest@, bcap, scap).len() <= d0.len() {
            if written < items.len() {
                assert(cc < ch + joined(items).len());
                assert(false);
            }
        }
    }
    Ok(c)
}

} // verus!
