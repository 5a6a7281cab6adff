//! The manhuashe source's link paths and numbers (its pages are read through
//! the host's HTML parser).
use vstd::prelude::*;
use vstd::slice::slice_subrange;
use vstd::string::StringSliceAdditionalSpecFns;
use crate::json_utils::{
    append_json_escaped, appended, contains_bytes, escaped, find, find_subslice, skip_while, splice,
    write_bytes,
};
use crate::pieces::{item_units, pieces_bytes, pieces_units, put_pieces, Piece};
use crate::units::{byte_units, wrote_units};
use crate::sources::bh3::{opt_view, or_else};
use crate::sources::site::{id_rest, path_of, rest_after};
use crate::sources::text::trimmed;
use crate::sources::text::{digits_fit, parse_decimal};

verus! {

/// The path of a manga link: the link itself when rooted, else what
/// follows its scheme and host.
pub fn manga_path_from_href(href: &[u8]) -> (r: Option<&[u8]>)
    ensures
        match r {
            Some(v) => path_of(href@) == Some(v@),
            None => path_of(href@) is None,
        },
{
    crate::sources::site::path_from_href(href)
}

/// A non-empty run of decimal digits read as a number.
pub fn parse_usize(bytes: &[u8]) -> (r: Option<usize>)
    requires
        digits_fit(bytes@, usize::MAX as nat),
    ensures
        match r {
            Some(n) => parse_decimal(bytes@) == Some(n as nat),
            None => parse_decimal(bytes@) is None,
        },
{
    crate::sources::text::parse_decimal_exec(bytes)
}


pub const BASE_URL: &'static str = "https://www.311s.com";

/// The path of a manga: its id after `manga:`.
pub fn manga_path(manga_id: &[u8]) -> (r: Option<&[u8]>)
    ensures
        match r {
            Some(v) => id_rest(manga_id@, "manga:".spec_bytes()) == Some(v@),
            None => id_rest(manga_id@, "manga:".spec_bytes()) is None,
        },
{
    rest_after(manga_id, "manga:".as_bytes())
}

pub const AUTHOR_LABEL: &'static str = "作者：";

pub open spec fn not_line_end_fn() -> spec_fn(u8) -> bool {
    |b: u8| b != 10 && b != 13
}

/// The author the stats block's text names: what follows `作者：` up to
/// the end of its line, trimmed and cut to 256 bytes; nothing when there
/// is no such label or the line holds nothing after it.
pub open spec fn author_of(stats: Option<Seq<u8>>) -> Seq<u8> {
    match stats {
        None => Seq::empty(),
        Some(s) => match find(s, AUTHOR_LABEL.spec_bytes()) {
            None => Seq::empty(),
            Some(p) => {
                let start = p + AUTHOR_LABEL.spec_bytes().len();
                let end = skip_while(s, start, not_line_end_fn());
                if end > start {
                    let v = trimmed(s.subrange(start, end));
                    if v.len() <= 256 {
                        v
                    } else {
                        v.take(256)
                    }
                } else {
                    Seq::empty()
                }
            },
        },
    }
}

/// The author named in the text of the stats block, when it shows one.
pub fn author_from_stats<'a>(stats: Option<&'a [u8]>) -> (r: &'a [u8])
    ensures
        r@ == author_of(opt_view(stats)),
{
    proof {
        reveal_strlit("");
    }
    let s = match stats {
        Some(s) => s,
        None => {
            return "".as_bytes();
        },
    };
    let label = AUTHOR_LABEL.as_bytes();
    let p = match find_subslice(s, label) {
        Some(p) => p,
        None => {
            return "".as_bytes();
        },
    };
    let sl: usize = s.len();
    assert(p + label@.len() <= sl);
    let start = p + label.len();
    let mut end = start;
    while end < s.len() && s[end] != 10 && s[end] != 13
        invariant
            start <= end <= s@.len(),
            skip_while(s@, start as int, not_line_end_fn()) == skip_while(s@, end as int, not_line_end_fn()),
        decreases s@.len() - end,
    {
        end = end + 1;
    }
    if end <= start {
        return "".as_bytes();
    }
    let v = crate::sources::dm5::trim_ascii(slice_subrange(s, start, end));
    if v.len() <= 256 {
        v
    } else {
        let w = slice_subrange(v, 0, 256);
        assert(w@ =~= v@.take(256));
        w
    }
}

/// Tag `t` escaped and written at `c0`, whole or as far as it fits.
pub open spec fn tag_written(d0: Seq<u8>, c0: int, t: Seq<u8>, d1: Seq<u8>, c1: int) -> bool {
    appended(d0, c0, escaped(t), d1, c1, true) || appended(d0, c0, escaped(t), d1, c1, false)
}

/// Adds tag `t` to the tag list being built in `buf`: a comma first
/// unless it is the first tag, then the tag escaped. A part that does not
/// fit is left out (the comma whole, the tag as far as it fits), and the
/// list goes on.
pub fn add_tag(buf: &mut [u8], cursor: &mut usize, first: bool, t: &[u8])
    requires
        *old(cursor) <= old(buf)@.len(),
    ensures
        final(buf)@.len() == old(buf)@.len(),
        *final(cursor) <= final(buf)@.len(),
        first || *old(cursor) + 1 > old(buf)@.len() ==> tag_written(
            old(buf)@,
            *old(cursor) as int,
            t@,
            final(buf)@,
            *final(cursor) as int,
        ),
        !first && *old(cursor) + 1 <= old(buf)@.len() ==> tag_written(
            splice(old(buf)@, *old(cursor) as int, ",".spec_bytes()),
            *old(cursor) + 1,
            t@,
            final(buf)@,
            *final(cursor) as int,
        ),
{
    proof {
        reveal_strlit(",");
        broadcast use vstd::string::is_ascii_spec_bytes;
        assert(vstd::string::is_ascii(","));
    }
    if !first {
        write_bytes(buf, cursor, ",".as_bytes());
    }
    let ghost dm = buf@;
    let ghost cm = *cursor as int;
    let ok = crate::json_utils::put_escaped(buf, cursor, t);
    assert(appended(dm, cm, escaped(t@), buf@, *cursor as int, ok));
}

/// The status the whole page gives.
pub open spec fn status_word(html: Seq<u8>) -> Seq<u8> {
    if find(html, "完结".spec_bytes()) is Some {
        "completed".spec_bytes()
    } else if find(html, "连载".spec_bytes()) is Some {
        "ongoing".spec_bytes()
    } else {
        "unknown".spec_bytes()
    }
}

fn status_text(html: &[u8]) -> (r: &'static str)
    ensures
        r.spec_bytes() == status_word(html@),
{
    if contains_bytes(html, "完结".as_bytes()) {
        "completed"
    } else if contains_bytes(html, "连载".as_bytes()) {
        "ongoing"
    } else {
        "unknown"
    }
}

/// The manga payload of the manga at `path` (its page `html` at `url`):
/// the selected title, cover and description, the author named in the
/// stats block's text and the tag list built with [`add_tag`]. As the
/// site's pages have always been answered, the author and the tags go into
/// their arrays without quotes, and the status without its closing quote.
pub open spec fn detail_json(
    html: Seq<u8>,
    path: Seq<u8>,
    url: Seq<u8>,
    title: Option<Seq<u8>>,
    cover: Option<Seq<u8>>,
    stats: Option<Seq<u8>>,
    desc: Option<Seq<u8>>,
    tags: Seq<u8>,
) -> Seq<u8> {
    "{\"manga\":{\"id\":\"manga:".spec_bytes() + escaped(path) + "\",\"title\":\"".spec_bytes() + escaped(
        or_else(title, path),
    ) + "\",\"alternateTitles\":[],\"description\":\"".spec_bytes() + escaped(or_else(desc, Seq::empty()))
        + "\",\"cover\":{\"kind\":\"url\",\"url\":\"".spec_bytes() + escaped(or_else(cover, Seq::empty()))
        + "\"},\"authors\":[".spec_bytes() + escaped(author_of(stats))
        + "],\"artists\":[],\"status\":\"".spec_bytes() + status_word(html)
        + ",\"contentRating\":\"safe\",\"language\":\"zh\",\"tags\":[".spec_bytes() + tags
        + "],\"links\":[{\"kind\":\"source\",\"url\":\"".spec_bytes() + escaped(url) + "\"}]}}".spec_bytes()
}

fn or_empty<'a>(v: Option<&'a [u8]>) -> (r: &'a [u8])
    ensures
        r@ == or_else(opt_view(v), Seq::empty()),
{
    match v {
        Some(s) => s,
        None => {
            proof {
                reveal_strlit("");
            }
            "".as_bytes()
        },
    }
}

/// Writes the manga payload of the manga at `path` (its page `html` at
/// `url`) from what the page shows; its length, or `None` when it does not
/// fit.
#[verifier::spinoff_prover]
#[verifier::rlimit(40)]
pub fn detail_payload(
    html: &[u8],
    path: &[u8],
    url: &[u8],
    title: Option<&[u8]>,
    cover: Option<&[u8]>,
    stats: Option<&[u8]>,
    desc: Option<&[u8]>,
    tags: &[u8],
    payload: &mut [u8],
) -> (r: Option<usize>)
    ensures
        final(payload)@.len() == old(payload)@.len(),
        match r {
            Some(n) => n == detail_json(html@, path@, url@, opt_view(title), opt_view(cover), opt_view(stats), opt_view(desc), tags@).len()
                && final(payload)@.take(n as int) == detail_json(html@, path@, url@, opt_view(title), opt_view(cover), opt_view(stats), opt_view(desc), tags@),
            None => detail_json(html@, path@, url@, opt_view(title), opt_view(cover), opt_view(stats), opt_view(desc), tags@).len()
                > old(payload)@.len(),
        },
{
    let t = match title {
        Some(v) => v,
        None => path,
    };
    let author = author_from_stats(stats);
    let word = status_text(html);
    let ps = [
        Piece::Text("{\"manga\":{\"id\":\"manga:"),
        Piece::Escaped(path),
        Piece::Text("\",\"title\":\""),
        Piece::Escaped(t),
        Piece::Text("\",\"alternateTitles\":[],\"description\":\""),
        Piece::Escaped(or_empty(desc)),
        Piece::Text("\",\"cover\":{\"kind\":\"url\",\"url\":\""),
        Piece::Escaped(or_empty(cover)),
        Piece::Text("\"},\"authors\":["),
        Piece::Escaped(author),
        Piece::Text("],\"artists\":[],\"status\":\""),
        Piece::Text(word),
        Piece::Text(",\"contentRating\":\"safe\",\"language\":\"zh\",\"tags\":["),
        Piece::Raw(tags),
        Piece::Text("],\"links\":[{\"kind\":\"source\",\"url\":\""),
        Piece::Escaped(url),
        Piece::Text("\"}]}}"),
    ];
    proof {
        reveal_with_fuel(pieces_bytes, 18);
        assert(pieces_bytes(ps@) =~= detail_json(html@, path@, url@, opt_view(title), opt_view(cover), opt_view(stats), opt_view(desc), tags@));
    }
    let mut c: usize = 0;
    if !put_pieces(payload, &mut c, &ps) {
        return None;
    }
    Some(c)
}


pub const CARD_TAIL: &'static str =
    "\"},\"authors\":[],\"status\":\"unknown\",\"contentRating\":\"safe\",\"description\":\"\",\"sourceTags\":[\"manhuashe\"]}";

/// Whether a list page links a next page.
pub fn next_linked(html: &[u8]) -> (r: bool)
    ensures
        r == find(html@, "class=\"next\"".spec_bytes()) is Some,
{
    contains_bytes(html, "class=\"next\"".as_bytes())
}

/// The URL of list page `page`: a search for `query`, or the list by hits.
pub open spec fn list_url_of(query: Option<Seq<u8>>, page: nat) -> Seq<u8> {
    match query {
        Some(q) => BASE_URL.spec_bytes() + "/search/".spec_bytes() + crate::json_utils::url_encoded(q) + "/".spec_bytes()
            + crate::json_utils::decimal(page),
        None => BASE_URL.spec_bytes() + "/category/order/hits/page/".spec_bytes() + crate::json_utils::decimal(page),
    }
}

/// Writes the URL of list page `page` into `out`; its length, or `None`
/// when it does not fit.
pub fn list_url(query: Option<&[u8]>, page: usize, out: &mut [u8]) -> (r: Option<usize>)
    ensures
        final(out)@.len() == old(out)@.len(),
        match r {
            Some(n) => n == list_url_of(opt_view(query), page as nat).len() && final(out)@.take(n as int)
                == list_url_of(opt_view(query), page as nat),
            None => list_url_of(opt_view(query), page as nat).len() > old(out)@.len(),
        },
{
    proof {
        reveal_strlit("");
    }
    let ps = match query {
        Some(q) => [Piece::Text(BASE_URL), Piece::Text("/search/"), Piece::UrlEncoded(q), Piece::Text("/"), Piece::Number(page)],
        None => [Piece::Text(BASE_URL), Piece::Text("/category/order/hits/page/"), Piece::Number(page), Piece::Text(""), Piece::Text("")],
    };
    proof {
        reveal_with_fuel(pieces_bytes, 6);
        assert(pieces_bytes(ps@) =~= list_url_of(opt_view(query), page as nat));
    }
    let mut c: usize = 0;
    if !put_pieces(out, &mut c, &ps) {
        return None;
    }
    Some(c)
}

/// Page `i`, its image at `url`. As the site's chapters have always been
/// answered, the URL's string is left without its closing quote.
pub open spec fn page_json(i: nat, url: Seq<u8>) -> Seq<u8> {
    "{\"id\":\"page:".spec_bytes() + crate::json_utils::decimal(i) + "\",\"index\":".spec_bytes()
        + crate::json_utils::decimal(i) + ",\"image\":{\"kind\":\"url\",\"url\":\"".spec_bytes() + escaped(url)
        + "}}".spec_bytes()
}

/// The units page `i` is written in.
pub open spec fn page_units(i: nat, url: Seq<u8>) -> Seq<Seq<u8>> {
    seq![
        "{\"id\":\"page:".spec_bytes(),
        crate::json_utils::decimal(i),
        "\",\"index\":".spec_bytes(),
        crate::json_utils::decimal(i),
        ",\"image\":{\"kind\":\"url\",\"url\":\"".spec_bytes(),
    ] + byte_units(url, crate::json_utils::escape_fn()) + seq!["}}".spec_bytes()]
}

/// Writes page `i` for the image at `url`, after a comma unless `i` is 0.
pub fn write_page(payload: &mut [u8], c: &mut usize, i: usize, url: &[u8]) -> (ok: bool)
    requires
        *old(c) <= old(payload)@.len(),
    ensures
        appended(old(payload)@, *old(c) as int, crate::pieces::item_unit(i > 0, page_json(i as nat, url@)), final(payload)@, *final(c) as int, ok),
        wrote_units(old(payload)@, *old(c) as int, item_units(i > 0, page_units(i as nat, url@)), final(payload)@, *final(c) as int, ok),
        final(payload)@.len() == old(payload)@.len(),
        *final(c) <= final(payload)@.len(),
{
    let ps = [
        Piece::Text("{\"id\":\"page:"),
        Piece::Number(i),
        Piece::Text("\",\"index\":"),
        Piece::Number(i),
        Piece::Text(",\"image\":{\"kind\":\"url\",\"url\":\""),
        Piece::Escaped(url),
        Piece::Text("}}"),
    ];
    proof {
        reveal_with_fuel(pieces_bytes, 8);
        assert(pieces_bytes(ps@) =~= page_json(i as nat, url@));
        reveal_with_fuel(pieces_units, 8);
        assert(pieces_units(ps@) =~= page_units(i as nat, url@));
    }
    crate::pieces::put_item(payload, c, i == 0, &ps)
}

} // verus!
