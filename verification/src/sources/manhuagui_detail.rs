//! The Manhuagui manga page (its mobile site), read as text: the title,
//! description, author and genre between their markers with tags
//! stripped, the cover from its tag, and the status from the words the
//! page uses.
use vstd::prelude::*;
use vstd::slice::slice_subrange;
use vstd::string::StringSliceAdditionalSpecFns;
use crate::json_utils::{appended, contains_bytes, escaped, find, find_subslice};
use crate::pieces::{pieces_bytes, put_pieces, Piece};
use crate::sources::bh3::{has_prefix, or_else, starts_with};
use crate::sources::dm5::{attr_after_of, extract_attr_after, min, mentions, status_of};
use crate::sources::manhuagui::{abs_url_text, write_abs_url, BASE_URL, MOBILE_URL};
use crate::sources::mh1234::quoted_or_empty;
use crate::sources::text::trimmed;

verus! {

/// The text of `s` outside tags, an entity (from `&` to `;`) shown as one
/// space; with the state after `s`: inside a tag, inside an entity.
pub open spec fn detagged(s: Seq<u8>) -> (Seq<u8>, bool, bool)
    decreases s.len(),
{
    if s.len() == 0 {
        (Seq::empty(), false, false)
    } else {
        let (prev, in_tag, entity) = detagged(s.drop_last());
        let b = s.last();
        if b == 60 {
            (prev, true, entity)
        } else if b == 62 {
            (prev, false, entity)
        } else if in_tag {
            (prev, in_tag, entity)
        } else if b == 38 {
            (prev.push(32), in_tag, true)
        } else if entity {
            (prev, in_tag, b != 59)
        } else {
            (prev.push(b), in_tag, entity)
        }
    }
}

/// The text of `s` without tags and entities, as much as fits `cap`
/// bytes, trimmed.
pub open spec fn plain_text(s: Seq<u8>, cap: nat) -> Seq<u8> {
    let t = detagged(s).0;
    trimmed(t.take(min(t.len() as int, cap as int)))
}

/// Copies the text of `src` without tags (an entity becomes a space) into
/// `out`, as much as fits, and returns it trimmed.
pub fn strip_text_to<'a>(src: &[u8], out: &'a mut [u8]) -> (r: &'a [u8])
    ensures
        final(out)@.len() == old(out)@.len(),
        r@ == plain_text(src@, old(out)@.len()),
{
    let ghost cap = out@.len() as int;
    let mut c: usize = 0;
    let mut in_tag = false;
    let mut entity = false;
    let mut i: usize = 0;
    while i < src.len()
        invariant
            0 <= i <= src@.len(),
            out@.len() == cap,
            in_tag == detagged(src@.take(i as int)).1,
            entity == detagged(src@.take(i as int)).2,
            c == min(detagged(src@.take(i as int)).0.len() as int, cap),
            out@.take(c as int) == detagged(src@.take(i as int)).0.take(c as int),
        decreases src@.len() - i,
    {
        let b = src[i];
        let ghost pre = src@.take(i as int);
        let ghost prev = detagged(pre).0;
        assert(src@.take(i + 1).drop_last() =~= pre);
        assert(src@.take(i + 1).last() == b);
        let ghost u = detagged(src@.take(i + 1)).0;
        if b == 60 {
            in_tag = true;
        } else if b == 62 {
            in_tag = false;
        } else if in_tag {
        } else {
            let shown: Option<u8> = if b == 38 {
                entity = true;
                Some(32)
            } else if entity {
                if b == 59 {
                    entity = false;
                }
                None
            } else {
                Some(b)
            };
            match shown {
                Some(v) => {
                    assert(u == prev.push(v));
                    if c < out.len() {
                        let ghost before = out@;
                        out[c] = v;
                        proof {
                            assert(prev.take(c as int) =~= prev);
                            assert(u.take(c + 1) =~= u);
                            assert(out@.take(c + 1) =~= u.take(c + 1)) by {
                                assert forall|k: int| 0 <= k < c implies out@[k] == before.take(c as int)[k] by {}
                            }
                        }
                        c = c + 1;
                    } else {
                        assert(u.take(c as int) =~= prev.take(c as int));
                    }
                },
                None => {},
            }
        }
        i = i + 1;
    }
    assert(src@.take(src@.len() as int) =~= src@);
    let o: &'a [u8] = out;
    let t = slice_subrange(o, 0, c);
    crate::sources::dm5::trim_ascii(t)
}

/// The text between the tag holding the first `marker` and the next
/// `end_marker` (or the end of the page), without tags, fitted to `cap`.
pub open spec fn marked_text_of(html: Seq<u8>, marker: Seq<u8>, end_marker: Seq<u8>, cap: nat) -> Option<Seq<u8>> {
    match find(html, marker) {
        None => None,
        Some(p) => match find(html.skip(p), ">".spec_bytes()) {
            None => None,
            Some(g) => {
                let gt = p + g + 1;
                let end = match find(html.skip(gt), end_marker) {
                    Some(v) => gt + v,
                    None => html.len() as int,
                };
                Some(plain_text(html.subrange(gt, end), cap))
            },
        },
    }
}

pub fn marked_text<'a>(html: &[u8], marker: &[u8], end_marker: &[u8], out: &'a mut [u8]) -> (r: Option<&'a [u8]>)
    ensures
        final(out)@.len() == old(out)@.len(),
        match r {
            Some(v) => marked_text_of(html@, marker@, end_marker@, old(out)@.len()) == Some(v@),
            None => marked_text_of(html@, marker@, end_marker@, old(out)@.len()) is None,
        },
{
    proof {
        reveal_strlit(">");
    }
    let hl: usize = html.len();
    let p = match find_subslice(html, marker) {
        Some(v) => v,
        None => {
            return None;
        },
    };
    let after = slice_subrange(html, p, html.len());
    assert(after@ =~= html@.skip(p as int));
    let g = match find_subslice(after, ">".as_bytes()) {
        Some(v) => v,
        None => {
            return None;
        },
    };
    assert(p + g + 1 <= hl);
    let gt = p + g + 1;
    let rest = slice_subrange(html, gt, html.len());
    assert(rest@ =~= html@.skip(gt as int));
    let end = match find_subslice(rest, end_marker) {
        Some(v) => {
            assert(gt + v <= hl);
            gt + v
        },
        None => html.len(),
    };
    Some(strip_text_to(slice_subrange(html, gt, end), out))
}

/// The text of the first link after `label`, within its `</span>` (or the
/// next 500 bytes), without tags and fitted to `cap`.
pub open spec fn label_link_text_of(html: Seq<u8>, label: Seq<u8>, cap: nat) -> Option<Seq<u8>> {
    match find(html, label) {
        None => None,
        Some(p) => {
            let end = match find(html.skip(p), "</span>".spec_bytes()) {
                Some(v) => p + v,
                None => min(p + 500, html.len() as int),
            };
            let slice = html.subrange(p, end);
            match find(slice, "<a".spec_bytes()) {
                None => None,
                Some(a) => match find(slice.skip(a), ">".spec_bytes()) {
                    None => None,
                    Some(g) => {
                        let gt = a + g + 1;
                        let close = match find(slice.skip(gt), "</a>".spec_bytes()) {
                            Some(v) => gt + v,
                            None => slice.len() as int,
                        };
                        Some(plain_text(slice.subrange(gt, close), cap))
                    },
                },
            }
        },
    }
}

pub fn label_link_text<'a>(html: &[u8], label: &[u8], out: &'a mut [u8]) -> (r: Option<&'a [u8]>)
    ensures
        final(out)@.len() == old(out)@.len(),
        match r {
            Some(v) => label_link_text_of(html@, label@, old(out)@.len()) == Some(v@),
            None => label_link_text_of(html@, label@, old(out)@.len()) is None,
        },
{
    proof {
        reveal_strlit(">");
        reveal_strlit("<a");
        reveal_strlit("</a>");
        reveal_strlit("</span>");
    }
    let hl: usize = html.len();
    let p = match find_subslice(html, label) {
        Some(v) => v,
        None => {
            return None;
        },
    };
    let after = slice_subrange(html, p, html.len());
    assert(after@ =~= html@.skip(p as int));
    let end = match find_subslice(after, "</span>".as_bytes()) {
        Some(v) => {
            assert(p + v <= hl);
            p + v
        },
        None => if html.len() - p < 500 {
            html.len()
        } else {
            p + 500
        },
    };
    let slice = slice_subrange(html, p, end);
    let sl: usize = slice.len();
    let a = match find_subslice(slice, "<a".as_bytes()) {
        Some(v) => v,
        None => {
            return None;
        },
    };
    let from_a = slice_subrange(slice, a, slice.len());
    assert(from_a@ =~= slice@.skip(a as int));
    let g = match find_subslice(from_a, ">".as_bytes()) {
        Some(v) => v,
        None => {
            return None;
        },
    };
    assert(a + g + 1 <= sl);
    let gt = a + g + 1;
    let rest = slice_subrange(slice, gt, slice.len());
    assert(rest@ =~= slice@.skip(gt as int));
    let close = match find_subslice(rest, "</a>".as_bytes()) {
        Some(v) => {
            assert(gt + v <= sl);
            gt + v
        },
        None => slice.len(),
    };
    Some(strip_text_to(slice_subrange(slice, gt, close), out))
}

/// The mobile page of manga `id`: under `/comic/` unless the id already
/// starts with `comic/`, always ending in `/`.
pub open spec fn mobile_url_of(id: Seq<u8>) -> Seq<u8> {
    let u = if has_prefix(id, "comic/".spec_bytes()) {
        MOBILE_URL.spec_bytes() + "/".spec_bytes() + id
    } else {
        MOBILE_URL.spec_bytes() + "/comic/".spec_bytes() + id
    };
    if u.len() > 0 && u.last() == 47 {
        u
    } else {
        u + "/".spec_bytes()
    }
}

/// Writes the mobile page URL of manga `id` into `out`; its length, or
/// `None` when it does not fit.
pub fn mobile_manga_url(id: &[u8], out: &mut [u8]) -> (r: Option<usize>)
    ensures
        final(out)@.len() == old(out)@.len(),
        match r {
            Some(n) => n == mobile_url_of(id@).len() && final(out)@.take(n as int) == mobile_url_of(id@),
            None => mobile_url_of(id@).len() > old(out)@.len(),
        },
{
    proof {
        reveal_strlit("/");
        reveal_strlit("https://m.manhuagui.com");
        broadcast use vstd::string::is_ascii_spec_bytes;
        assert(vstd::string::is_ascii("/"));
        assert(vstd::string::is_ascii("https://m.manhuagui.com"));
        assert(MOBILE_URL.spec_bytes().len() > 0);
    }
    let ps = if starts_with(id, "comic/".as_bytes()) {
        [Piece::Text(MOBILE_URL), Piece::Text("/"), Piece::Raw(id)]
    } else {
        [Piece::Text(MOBILE_URL), Piece::Text("/comic/"), Piece::Raw(id)]
    };
    let ghost u = pieces_bytes(ps@);
    proof {
        reveal_with_fuel(pieces_bytes, 4);
        assert(u =~= if has_prefix(id@, "comic/".spec_bytes()) {
            MOBILE_URL.spec_bytes() + "/".spec_bytes() + id@
        } else {
            MOBILE_URL.spec_bytes() + "/comic/".spec_bytes() + id@
        });
    }
    let mut c: usize = 0;
    if !put_pieces(out, &mut c, &ps) {
        proof {
            if u.len() == 0 || u.last() != 47 {
                assert((u + "/".spec_bytes()).len() > u.len());
            }
        }
        return None;
    }
    if out[c - 1] == 47 {
        assert(out@.take(c as int) == u);
        assert(u.last() == out@[c - 1]);
        return Some(c);
    }
    assert(u.last() == out@[c - 1]);
    let ghost d = out@;
    if c >= out.len() {
        return None;
    }
    out[c] = 47;
    proof {
        assert(d.take(c as int) == u);
        assert(out@ == d.update(c as int, 47u8));
        assert(out@.take(c + 1) =~= u + "/".spec_bytes());
    }
    Some(c + 1)
}

/// The manga payload of manga `id` (its mobile page `html` at `url`).
pub open spec fn detail_json(html: Seq<u8>, id: Seq<u8>, url: Seq<u8>) -> Seq<u8> {
    detail_text(
        id,
        or_else(marked_text_of(html, "class=\"book-title\"".spec_bytes(), "</h1>".spec_bytes(), 256), id),
        or_else(marked_text_of(html, "id=\"intro-all\"".spec_bytes(), "</div>".spec_bytes(), 4096), Seq::empty()),
        or_else(attr_after_of(html, "class=\"hcover\"".spec_bytes(), "src".spec_bytes()), Seq::empty()),
        or_else(label_link_text_of(html, "漫画作者".spec_bytes(), 256), Seq::empty()),
        or_else(label_link_text_of(html, "漫画剧情".spec_bytes(), 256), Seq::empty()),
        status_of(html),
        url,
    )
}

/// The manga payload made of its fields.
pub open spec fn detail_text(
    id: Seq<u8>,
    title: Seq<u8>,
    desc: Seq<u8>,
    cover: Seq<u8>,
    author: Seq<u8>,
    genre: Seq<u8>,
    status: Seq<u8>,
    url: Seq<u8>,
) -> Seq<u8> {
    detail_open(id, title, desc) + abs_url_text(cover, BASE_URL.spec_bytes()) + detail_close(author, genre, status, url)
}

/// The manga payload up to its cover URL.
pub open spec fn detail_open(id: Seq<u8>, title: Seq<u8>, desc: Seq<u8>) -> Seq<u8> {
    "{\"manga\":{\"id\":\"".spec_bytes() + escaped(id) + "\",\"title\":\"".spec_bytes() + escaped(title)
        + "\",\"alternateTitles\":[],\"description\":\"".spec_bytes() + escaped(desc)
        + "\",\"cover\":{\"kind\":\"url\",\"url\":\"".spec_bytes()
}

/// The manga payload after its cover URL.
pub open spec fn detail_close(author: Seq<u8>, genre: Seq<u8>, status: Seq<u8>, url: Seq<u8>) -> Seq<u8> {
    "\"},\"authors\":[".spec_bytes() + quoted_or_empty(author) + "],\"artists\":[],\"status\":\"".spec_bytes()
        + status + "\",\"contentRating\":\"nsfw\",\"language\":\"zh\",\"tags\":[".spec_bytes()
        + quoted_or_empty(genre) + "],\"links\":[{\"kind\":\"source\",\"url\":\"".spec_bytes() + escaped(url)
        + "\"}]}}".spec_bytes()
}

fn opt_or<'a>(v: Option<&'a [u8]>, d: &'a [u8]) -> (r: &'a [u8])
    ensures
        r@ == match v {
            Some(s) => s@,
            None => d@,
        },
{
    match v {
        Some(s) => s,
        None => d,
    }
}

fn quote_for(v: &[u8]) -> (q: &'static str)
    ensures
        q.spec_bytes() + escaped(v@) + q.spec_bytes() == quoted_or_empty(v@),
{
    proof {
        reveal_strlit("");
        reveal_strlit("\"");
    }
    if v.len() > 0 {
        "\""
    } else {
        assert(escaped(v@) =~= Seq::<u8>::empty()) by {
            reveal_with_fuel(crate::json_utils::per_byte, 1);
        }
        assert(Seq::<u8>::empty() + Seq::<u8>::empty() + Seq::<u8>::empty() =~= Seq::<u8>::empty());
        ""
    }
}

/// Writes the manga payload made of the given fields; its length, or
/// `None` when it does not fit.
#[verifier::spinoff_prover]
#[verifier::rlimit(40)]
fn write_detail(
    payload: &mut [u8],
    id: &[u8],
    title: &[u8],
    desc: &[u8],
    cover: &[u8],
    author: &[u8],
    genre: &[u8],
    status: &str,
    url: &[u8],
) -> (r: Option<usize>)
    ensures
        final(payload)@.len() == old(payload)@.len(),
        match r {
            Some(n) => n == detail_text(id@, title@, desc@, cover@, author@, genre@, status.spec_bytes(), url@).len()
                && final(payload)@.take(n as int) == detail_text(id@, title@, desc@, cover@, author@, genre@, status.spec_bytes(), url@),
            None => detail_text(id@, title@, desc@, cover@, author@, genre@, status.spec_bytes(), url@).len() > old(payload)@.len(),
        },
{
    let qa = quote_for(author);
    let qg = quote_for(genre);
    let a = [
        Piece::Text("{\"manga\":{\"id\":\""),
        Piece::Escaped(id),
        Piece::Text("\",\"title\":\""),
        Piece::Escaped(title),
        Piece::Text("\",\"alternateTitles\":[],\"description\":\""),
        Piece::Escaped(desc),
        Piece::Text("\",\"cover\":{\"kind\":\"url\",\"url\":\""),
    ];
    let z = [
        Piece::Text("\"},\"authors\":["),
        Piece::Text(qa),
        Piece::Escaped(author),
        Piece::Text(qa),
        Piece::Text("],\"artists\":[],\"status\":\""),
        Piece::Text(status),
        Piece::Text("\",\"contentRating\":\"nsfw\",\"language\":\"zh\",\"tags\":["),
        Piece::Text(qg),
        Piece::Escaped(genre),
        Piece::Text(qg),
        Piece::Text("],\"links\":[{\"kind\":\"source\",\"url\":\""),
        Piece::Escaped(url),
        Piece::Text("\"}]}}"),
    ];
    let ghost ua = pieces_bytes(a@);
    let ghost ub = abs_url_text(cover@, BASE_URL.spec_bytes());
    let ghost uz = pieces_bytes(z@);
    proof {
        assert(ua =~= detail_open(id@, title@, desc@)) by {
            reveal_with_fuel(pieces_bytes, 8);
        }
        assert(uz =~= detail_close(author@, genre@, status.spec_bytes(), url@)) by {
            reveal_with_fuel(pieces_bytes, 14);
        }
    }
    let mut c: usize = 0;
    let ghost d0 = payload@;
    if !put_pieces(payload, &mut c, &a) {
        proof {
            crate::json_utils::lemma_appended_fail_extend(d0, 0, ua, payload@, c as int, ub + uz);
            assert(ua + (ub + uz) =~= ua + ub + uz);
        }
        return None;
    }
    let ghost dm = payload@;
    let ghost cm = c as int;
    let ok = write_abs_url(payload, &mut c, cover, BASE_URL.as_bytes());
    proof {
        crate::json_utils::lemma_appended_then(d0, 0, ua, dm, cm, ub, payload@, c as int, ok);
    }
    if !ok {
        proof {
            crate::json_utils::lemma_appended_fail_extend(d0, 0, ua + ub, payload@, c as int, uz);
        }
        return None;
    }
    let ghost dm2 = payload@;
    let ghost cm2 = c as int;
    let ok = put_pieces(payload, &mut c, &z);
    proof {
        crate::json_utils::lemma_appended_then(d0, 0, ua + ub, dm2, cm2, uz, payload@, c as int, ok);
    }
    if !ok {
        return None;
    }
    Some(c)
}

/// Writes the manga payload of manga `id` from its mobile page `html` at
/// `url`; its length, or `None` when it does not fit.
pub fn detail_payload(html: &[u8], id: &[u8], url: &[u8], payload: &mut [u8]) -> (r: Option<usize>)
    ensures
        final(payload)@.len() == old(payload)@.len(),
        match r {
            Some(n) => n == detail_json(html@, id@, url@).len() && final(payload)@.take(n as int) == detail_json(
                html@,
                id@,
                url@,
            ),
            None => detail_json(html@, id@, url@).len() > old(payload)@.len(),
        },
{
    proof {
        reveal_strlit("");
    }
    let empty: &[u8] = "".as_bytes();
    let mut title_buf: [u8; 256] = [0; 256];
    let mut desc_buf: [u8; 4096] = [0; 4096];
    let mut author_buf: [u8; 256] = [0; 256];
    let mut genre_buf: [u8; 256] = [0; 256];
    let title = opt_or(marked_text(html, "class=\"book-title\"".as_bytes(), "</h1>".as_bytes(), &mut title_buf), id);
    let desc = opt_or(marked_text(html, "id=\"intro-all\"".as_bytes(), "</div>".as_bytes(), &mut desc_buf), empty);
    let author = opt_or(label_link_text(html, "漫画作者".as_bytes(), &mut author_buf), empty);
    let genre = opt_or(label_link_text(html, "漫画剧情".as_bytes(), &mut genre_buf), empty);
    let cover = opt_or(extract_attr_after(html, "class=\"hcover\"".as_bytes(), "src".as_bytes()), empty);
    let status = if contains_bytes(html, "已完结".as_bytes()) || contains_bytes(html, "已完結".as_bytes()) {
        "completed"
    } else if contains_bytes(html, "连载中".as_bytes()) || contains_bytes(html, "連載中".as_bytes()) {
        "ongoing"
    } else {
        "unknown"
    };
    proof {
        reveal_strlit("已完结");
        reveal_strlit("已完結");
        reveal_strlit("连载中");
        reveal_strlit("連載中");
        assert(status.spec_bytes() == status_of(html@));
    }
    write_detail(payload, id, title, desc, cover, author, genre, status, url)
}

} // verus!
