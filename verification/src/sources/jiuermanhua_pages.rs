//! The 92mh reader page: its script's `chapterImages` array lists the
//! chapter's images, whose URLs are made with the image host the site's
//! configuration names and the chapter's path.
use vstd::prelude::*;
use vstd::slice::slice_subrange;
use vstd::string::StringSliceAdditionalSpecFns;
use crate::json_utils::{
    appended, decimal, escaped, find, find_subslice, lemma_appended_fail_extend, lemma_appended_then,
    put_str,
};
use crate::pieces::{
    item_unit, joined, joined_written, lemma_item_fail, lemma_item_ok, lemma_joined_empty,
    lemma_joined_prefix, lemma_list_text, pieces_bytes, put_pieces, put_pieces_then, Piece, pieces_units, concat_units,
    lemma_units_empty, lemma_units_item_fail, lemma_units_item_ok, list_written, lemma_list_written, lemma_list_head_fail,
};
use crate::sources::jiuermanhua::{extract_js_string, js_string_at, page_url_text, page_url_units, write_page_url};
use crate::units::{fitting, lemma_wrote_fail_extend, lemma_wrote_then, wrote_units};
use crate::sources::site::pages_head;

verus! {

/// The strings of a script array from `pos`, up to its `]` (a string
/// that is not closed ends the list).
pub open spec fn js_images(h: Seq<u8>, pos: int) -> Seq<Seq<u8>>
    decreases h.len() - pos,
{
    if pos < 0 || pos >= h.len() || h[pos] == 93 {
        Seq::empty()
    } else if h[pos] != 34 {
        js_images(h, pos + 1)
    } else {
        match js_string_at(h, pos) {
            None => Seq::empty(),
            Some((s, next)) => if next <= pos || next > h.len() {
                Seq::empty()
            } else {
                seq![s] + js_images(h, next)
            },
        }
    }
}

pub const MAX_PAGES: usize = 2000;

/// The images of the array starting at `start`: its first 2000 strings.
pub open spec fn page_images(h: Seq<u8>, start: int) -> Seq<Seq<u8>> {
    let all = js_images(h, start);
    if all.len() <= MAX_PAGES {
        all
    } else {
        all.take(MAX_PAGES as int)
    }
}

/// Page `k`: the image `img` made a URL with the image host and the
/// chapter's path.
pub open spec fn page_json(k: nat, host: Seq<u8>, path: Seq<u8>, img: Seq<u8>) -> Seq<u8> {
    "{\"id\":\"page:".spec_bytes() + decimal(k) + "\",\"index\":".spec_bytes() + decimal(k)
        + ",\"image\":{\"kind\":\"url\",\"url\":\"".spec_bytes() + page_url_text(host, path, img) + "\"}}".spec_bytes()
}

pub open spec fn page_items(host: Seq<u8>, path: Seq<u8>, imgs: Seq<Seq<u8>>) -> Seq<Seq<u8>> {
    Seq::new(imgs.len(), |k: int| page_json(k as nat, host, path, imgs[k]))
}

/// The units page `k` is written in, after a comma unless it is the
/// first.
pub open spec fn page_units(k: nat, host: Seq<u8>, path: Seq<u8>, img: Seq<u8>) -> Seq<Seq<u8>> {
    seq![if k > 0 { ",".spec_bytes() } else { Seq::<u8>::empty() }] + seq![
        "{\"id\":\"page:".spec_bytes(),
        decimal(k),
        "\",\"index\":".spec_bytes(),
        decimal(k),
        ",\"image\":{\"kind\":\"url\",\"url\":\"".spec_bytes(),
    ] + page_url_units(host, path, img) + seq!["\"}}".spec_bytes()]
}

/// The pages as the units they are written in.
pub open spec fn page_unit_items(host: Seq<u8>, path: Seq<u8>, imgs: Seq<Seq<u8>>) -> Seq<Seq<Seq<u8>>> {
    Seq::new(imgs.len(), |k: int| page_units(k as nat, host, path, imgs[k]))
}

fn put_page(payload: &mut [u8], c: &mut usize, k: usize, host: &[u8], path: &[u8], img: &[u8]) -> (ok: bool)
    requires
        *old(c) <= old(payload)@.len(),
    ensures
        appended(old(payload)@, *old(c) as int, item_unit(k > 0, page_json(k as nat, host@, path@, img@)), final(payload)@, *final(c) as int, ok),
        wrote_units(old(payload)@, *old(c) as int, page_units(k as nat, host@, path@, img@), final(payload)@, *final(c) as int, ok),
        final(payload)@.len() == old(payload)@.len(),
        *final(c) <= final(payload)@.len(),
{
    proof {
        reveal_strlit(",");
        reveal_strlit("");
    }
    let s: &str = if k > 0 { "," } else { "" };
    let lead = [Piece::Text(s)];
    let a = [
        Piece::Text("{\"id\":\"page:"),
        Piece::Number(k),
        Piece::Text("\",\"index\":"),
        Piece::Number(k),
        Piece::Text(",\"image\":{\"kind\":\"url\",\"url\":\""),
    ];
    let z = [Piece::Text("\"}}")];
    let ghost d0 = payload@;
    let ghost c0 = *c as int;
    let ghost ua = pieces_bytes(lead@) + pieces_bytes(a@);
    let ghost ub = page_url_text(host@, path@, img@);
    let ghost uz = pieces_bytes(z@);
    let ghost va = pieces_units(lead@) + pieces_units(a@);
    let ghost vb = page_url_units(host@, path@, img@);
    let ghost vz = pieces_units(z@);
    proof {
        reveal_with_fuel(pieces_bytes, 6);
        assert(item_unit(k > 0, page_json(k as nat, host@, path@, img@)) =~= ua + ub + uz);
        reveal_with_fuel(pieces_units, 6);
        assert(page_units(k as nat, host@, path@, img@) =~= va + vb + vz);
    }
    if !put_pieces_then(payload, c, &lead, &a) {
        proof {
            lemma_appended_fail_extend(d0, c0, ua, payload@, *c as int, ub + uz);
            assert(ua + (ub + uz) =~= ua + ub + uz);
            lemma_wrote_fail_extend(d0, c0, va, payload@, *c as int, vb + vz);
            assert(va + (vb + vz) =~= va + vb + vz);
        }
        return false;
    }
    let ghost dm = payload@;
    let ghost cm = *c as int;
    let ok = write_page_url(payload, c, host, path, img);
    proof {
        lemma_appended_then(d0, c0, ua, dm, cm, ub, payload@, *c as int, ok);
        lemma_wrote_then(d0, c0, va, dm, cm, vb, payload@, *c as int, ok);
    }
    if !ok {
        proof {
            lemma_appended_fail_extend(d0, c0, ua + ub, payload@, *c as int, uz);
            lemma_wrote_fail_extend(d0, c0, va + vb, payload@, *c as int, vz);
        }
        return false;
    }
    let ghost dm2 = payload@;
    let ghost cm2 = *c as int;
    let ok = put_pieces(payload, c, &z);
    proof {
        lemma_appended_then(d0, c0, ua + ub, dm2, cm2, uz, payload@, *c as int, ok);
        lemma_wrote_then(d0, c0, va + vb, dm2, cm2, vz, payload@, *c as int, ok);
    }
    ok
}

/// Writes a page for each image of the array from `start`, stopping at
/// the first that does not fit; how many went out whole.
#[verifier::rlimit(40)]
fn write_pages(payload: &mut [u8], c: &mut usize, html: &[u8], start: usize, host: &[u8], path: &[u8]) -> (r: usize)
    requires
        *old(c) <= old(payload)@.len(),
        start <= html@.len(),
    ensures
        appended(
            old(payload)@,
            *old(c) as int,
            joined(page_items(host@, path@, page_images(html@, start as int))),
            final(payload)@,
            *final(c) as int,
            r == page_images(html@, start as int).len(),
        ),
        joined_written(page_items(host@, path@, page_images(html@, start as int)), r as int, *old(c) as int, *final(c) as int),
        wrote_units(
            old(payload)@,
            *old(c) as int,
            concat_units(page_unit_items(host@, path@, page_images(html@, start as int))),
            final(payload)@,
            *final(c) as int,
            r == page_images(html@, start as int).len(),
        ),
        final(payload)@.len() == old(payload)@.len(),
        *final(c) <= final(payload)@.len(),
{
    let ghost d0 = payload@;
    let ghost c0 = *c as int;
    let ghost all = js_images(html@, start as int);
    let ghost names = page_images(html@, start as int);
    let ghost items = page_items(host@, path@, names);
    let ghost xs = page_unit_items(host@, path@, names);
    let mut pos: usize = start;
    let mut k: usize = 0;
    proof {
        lemma_joined_empty(items);
        lemma_units_empty(xs, d0, c0);
        crate::json_utils::lemma_appended_start(d0, c0);
        assert(all.take(0) + js_images(html@, start as int) =~= all);
    }
    loop
        invariant_except_break
            all == all.take(k as int) + js_images(html@, pos as int),
            k < MAX_PAGES,
        invariant
            d0 == old(payload)@,
            c0 == *old(c) as int,
            0 <= c0 <= d0.len(),
            payload@.len() == d0.len(),
            *c <= payload@.len(),
            all == js_images(html@, start as int),
            names == page_images(html@, start as int),
            items == page_items(host@, path@, names),
            pos <= html@.len(),
            k <= all.len(),
            k <= MAX_PAGES,
            appended(d0, c0, joined(items.take(k as int)), payload@, *c as int, true),
            xs == page_unit_items(host@, path@, names),
            wrote_units(d0, c0, concat_units(xs.take(k as int)), payload@, *c as int, true),
        ensures
            k == names.len(),
            appended(d0, c0, joined(items), payload@, *c as int, true),
            wrote_units(d0, c0, concat_units(xs), payload@, *c as int, true),
        decreases html@.len() - pos,
    {
        if pos >= html.len() || html[pos] == 93 {
            proof {
                assert(js_images(html@, pos as int) =~= Seq::<Seq<u8>>::empty());
                assert(all.take(k as int) + Seq::<Seq<u8>>::empty() =~= all.take(k as int));
                assert(all.len() == k);
                assert(names =~= all);
                assert(items.take(k as int) =~= items);
                    assert(xs.take(k as int) =~= xs);
            }
            break;
        }
        if html[pos] != 34 {
            assert(js_images(html@, pos as int) == js_images(html@, pos + 1));
            pos = pos + 1;
            continue;
        }
        let (img, next) = match extract_js_string(html, pos) {
            Some(v) => v,
            None => {
                proof {
                    assert(js_images(html@, pos as int) =~= Seq::<Seq<u8>>::empty());
                    assert(all.take(k as int) + Seq::<Seq<u8>>::empty() =~= all.take(k as int));
                    assert(all.len() == k);
                    assert(names =~= all);
                    assert(items.take(k as int) =~= items);
                    assert(xs.take(k as int) =~= xs);
                }
                break;
            },
        };
        assert(next > pos && next <= html@.len());
        assert(js_images(html@, pos as int) == seq![img@] + js_images(html@, next as int));
        let ghost j = k as int;
        proof {
            assert(all[j] == img@) by {
                assert((all.take(j) + js_images(html@, pos as int))[j] == img@);
            }
            assert(names[j] == img@);
            assert(items[j] == page_json(j as nat, host@, path@, img@));
            assert(xs[j] == page_units(j as nat, host@, path@, img@));
        }
        let ghost dm = payload@;
        let ghost cm = *c as int;
        if !put_page(payload, c, k, host, path, img) {
            proof {
                lemma_item_fail(items, j, d0, c0, dm, cm, payload@, *c as int);
                lemma_units_item_fail(xs, j, d0, c0, dm, cm, payload@, *c as int);
            }
            return k;
        }
        proof {
            lemma_item_ok(items, j, d0, c0, dm, cm, payload@, *c as int);
            lemma_units_item_ok(xs, j, d0, c0, dm, cm, payload@, *c as int);
            assert(all.take(j + 1) + js_images(html@, next as int) =~= all) by {
                assert(all.take(j + 1) =~= all.take(j).push(img@));
            }
        }
        k = k + 1;
        pos = next;
        if k >= MAX_PAGES {
            proof {
                assert(names =~= all.take(MAX_PAGES as int));
                assert(items.take(k as int) =~= items);
                    assert(xs.take(k as int) =~= xs);
            }
            break;
        }
    }
    k
}

/// Why a reader page gives no page list.
#[derive(Clone, Copy, Debug, PartialEq, Eq, Structural)]
pub enum PagesError {
    /// There is no `chapterImages`.
    NoImages,
    /// No `[` follows it.
    NoArray,
    /// The list does not fit.
    Overflow,
}

pub const IMAGES_MARKER: &'static str = "chapterImages";

/// Where the image array's first element starts: just past the `[` after
/// `chapterImages`.
pub open spec fn array_start_of(html: Seq<u8>) -> Result<int, PagesError> {
    match find(html, IMAGES_MARKER.spec_bytes()) {
        None => Err(PagesError::NoImages),
        Some(p) => {
            let mp = p + IMAGES_MARKER.spec_bytes().len();
            match find(html.skip(mp), "[".spec_bytes()) {
                None => Err(PagesError::NoArray),
                Some(q) => Ok(mp + q + 1),
            }
        },
    }
}

/// The page list of chapter `id` when it all fits.
pub open spec fn pages_json(id: Seq<u8>, html: Seq<u8>, host: Seq<u8>, path: Seq<u8>, start: int) -> Seq<u8> {
    pages_head(id) + joined(page_items(host, path, page_images(html, start))) + "]}".spec_bytes()
}

/// The page list of chapter `id` written into `cap` bytes: its opening,
/// the pages up to the first unit that does not fit, and its closing.
pub open spec fn pages_answer(id: Seq<u8>, html: Seq<u8>, host: Seq<u8>, path: Seq<u8>, cap: nat) -> Option<Seq<u8>> {
    list_written(
        pages_head(id),
        concat_units(page_unit_items(host, path, page_images(html, array_start_of(html)->Ok_0))),
        "]}".spec_bytes(),
        cap as int,
    )
}

/// Builds the page list of chapter `id` from its reader page `html`, the
/// image host and the chapter's path. Where the pages do not all fit, the
/// closing still follows those that went out.
#[verifier::spinoff_prover]
#[verifier::rlimit(60)]
pub fn pages_payload(id: &[u8], html: &[u8], host: &[u8], path: &[u8], payload: &mut [u8]) -> (r: Result<usize, PagesError>)
    ensures
        final(payload)@.len() == old(payload)@.len(),
        array_start_of(html@) is Err ==> r == Err::<usize, PagesError>(array_start_of(html@)->Err_0),
        array_start_of(html@) is Ok ==> match r {
            Ok(n) => n <= old(payload)@.len() && pages_answer(id@, html@, host@, path@, old(payload)@.len())
                == Some(final(payload)@.take(n as int)),
            Err(e) => e == PagesError::Overflow && pages_json(id@, html@, host@, path@, array_start_of(html@)->Ok_0).len()
                > old(payload)@.len() && pages_answer(id@, html@, host@, path@, old(payload)@.len()) is None,
        },
        array_start_of(html@) is Ok && pages_json(id@, html@, host@, path@, array_start_of(html@)->Ok_0).len()
            <= old(payload)@.len() ==> r == Ok::<usize, PagesError>(
            pages_json(id@, html@, host@, path@, array_start_of(html@)->Ok_0).len() as usize,
        ) && final(payload)@.take(pages_json(id@, html@, host@, path@, array_start_of(html@)->Ok_0).len() as int)
            == pages_json(id@, html@, host@, path@, array_start_of(html@)->Ok_0),
{
    proof {
        reveal_strlit("[");
        reveal_strlit("chapterImages");
        broadcast use vstd::string::is_ascii_spec_bytes;
        assert(vstd::string::is_ascii("["));
        assert(vstd::string::is_ascii("chapterImages"));
    }
    let hl: usize = html.len();
    let p = match find_subslice(html, IMAGES_MARKER.as_bytes()) {
        Some(p) => p,
        None => {
            return Err(PagesError::NoImages);
        },
    };
    assert(p + 13 <= hl);
    let mp = p + 13;
    let rest = slice_subrange(html, mp, html.len());
    assert(rest@ =~= html@.skip(mp as int));
    let q = match find_subslice(rest, "[".as_bytes()) {
        Some(q) => q,
        None => {
            return Err(PagesError::NoArray);
        },
    };
    assert(mp + q + 1 <= hl);
    let start = mp + q + 1;
    assert(IMAGES_MARKER.spec_bytes().len() == 13);
    assert(array_start_of(html@) == Ok::<int, PagesError>(start as int));
    let ghost items = page_items(host@, path@, page_images(html@, start as int));
    let ghost head = pages_head(id@);
    let ghost d0 = payload@;
    let mut c: usize = 0;
    let ghost xs = page_unit_items(host@, path@, page_images(html@, start as int));
    if !crate::sources::site::write_pages_head(payload, &mut c, id) {
        proof {
            assert(pages_json(id@, html@, host@, path@, start as int) =~= head + joined(items) + "]}".spec_bytes());
            lemma_list_head_fail(d0, head, payload@, c as int, concat_units(xs), "]}".spec_bytes());
        }
        return Err(PagesError::Overflow);
    }
    let ghost dh = payload@;
    let ghost ch = c as int;
    let written = write_pages(payload, &mut c, html, start, host, path);
    let ghost dc = payload@;
    let ghost cc = c as int;
    proof {
        assert(pages_json(id@, html@, host@, path@, start as int) =~= head + joined(items) + "]}".spec_bytes());
    }
    let okf = put_str(payload, &mut c, "]}");
    proof {
        lemma_list_written(d0, head, dh, ch, concat_units(xs), dc, cc, written == xs.len(), "]}".spec_bytes(), payload@, c as int, okf);
    }
    if !okf {
        proof {
            if written == items.len() {
                assert(cc == ch + joined(items).len());
            } else {
                lemma_joined_prefix(items, written as int + 1);
                lemma_joined_prefix(items, written as int);
            }
        }
        return Err(PagesError::Overflow);
    }
    proof {
        lemma_list_text(items, written as int, head, "]}".spec_bytes(), d0, dh, ch, dc, cc, payload@, c as int);
        if pages_json(id@, html@, host@, path@, start as int).len() <= d0.len() {
            if written < items.len() {
                assert(cc < ch + joined(items).len());
                assert(false);
            }
        }
    }
    Ok(c)
}

} // verus!
