//! HappyMH pages and API addresses: the index URL, the image of a scan,
//! and reading a manga page's tags, attributes and text.
use vstd::prelude::*;
use vstd::slice::slice_subrange;
use vstd::string::StringSliceAdditionalSpecFns;
use crate::json_utils::{appended, decimal, lemma_appended_then, escaped, extract_json_string, find, find_subslice, json_string_value};
use crate::sources::text::trimmed;
use crate::pieces::{item_unit, joined, lemma_item_fail, lemma_item_ok, lemma_joined_empty, pieces_bytes, put_pieces, Piece};

verus! {

/// The index API's address for page `page`, ordered by `order`, with the
/// filters that are set.
pub open spec fn index_url_of(
    page: nat,
    order: Seq<u8>,
    genre: Seq<u8>,
    area: Seq<u8>,
    audience: Seq<u8>,
    status: Seq<u8>,
) -> Seq<u8> {
    "https://m.happymh.com/apis/c/index?pn=".spec_bytes() + decimal(page) + "&series_status=".spec_bytes() + escaped(status)
        + "&order=".spec_bytes() + escaped(order) + filter_part("&genre=".spec_bytes(), genre) + filter_part(
        "&area=".spec_bytes(),
        area,
    ) + filter_part("&audience=".spec_bytes(), audience)
}

/// A filter of the index address: nothing when it is not set.
pub open spec fn filter_part(name: Seq<u8>, value: Seq<u8>) -> Seq<u8> {
    if value.len() == 0 {
        Seq::empty()
    } else {
        name + escaped(value)
    }
}

/// Writes the index address into `out`; its length, or `None` when it
/// does not fit.
pub fn index_url(
    page: usize,
    order: &[u8],
    genre: &[u8],
    area: &[u8],
    audience: &[u8],
    status: &[u8],
    out: &mut [u8],
) -> (r: Option<usize>)
    ensures
        final(out)@.len() == old(out)@.len(),
        match r {
            Some(n) => n == index_url_of(page as nat, order@, genre@, area@, audience@, status@).len() && final(out)@.take(
                n as int,
            ) == index_url_of(page as nat, order@, genre@, area@, audience@, status@),
            None => index_url_of(page as nat, order@, genre@, area@, audience@, status@).len() > old(out)@.len(),
        },
{
    proof {
        reveal_strlit("");
    }
    let g: &str = if genre.len() == 0 { "" } else { "&genre=" };
    let a: &str = if area.len() == 0 { "" } else { "&area=" };
    let u: &str = if audience.len() == 0 { "" } else { "&audience=" };
    let ps = [
        Piece::Text("https://m.happymh.com/apis/c/index?pn="),
        Piece::Number(page),
        Piece::Text("&series_status="),
        Piece::Escaped(status),
        Piece::Text("&order="),
        Piece::Escaped(order),
        Piece::Text(g),
        Piece::Escaped(genre),
        Piece::Text(a),
        Piece::Escaped(area),
        Piece::Text(u),
        Piece::Escaped(audience),
    ];
    proof {
        reveal_with_fuel(pieces_bytes, 13);
        assert(pieces_bytes(ps@) =~= index_url_of(page as nat, order@, genre@, area@, audience@, status@));
    }
    let mut c: usize = 0;
    if put_pieces(out, &mut c, &ps) {
        proof {
            assert(out@.take(c as int) =~= index_url_of(page as nat, order@, genre@, area@, audience@, status@));
        }
        Some(c)
    } else {
        None
    }
}

/// The image of a scan: its `url` (without its `?q=` query where the
/// scan is too large to resize), or none for a scan without one.
pub open spec fn scan_image_of(obj: Seq<u8>, trim: bool) -> Option<Seq<u8>> {
    let url = match json_string_value(obj, "url".spec_bytes()) {
        Some(u) => u,
        None => Seq::empty(),
    };
    if url.len() == 0 {
        None
    } else if trim {
        match find(url, "?q=".spec_bytes()) {
            Some(q) => Some(url.take(q)),
            None => Some(url),
        }
    } else {
        Some(url)
    }
}

pub fn scan_image(obj: &[u8], trim: bool) -> (r: Option<&[u8]>)
    ensures
        match r {
            Some(v) => scan_image_of(obj@, trim) == Some(v@),
            None => scan_image_of(obj@, trim) is None,
        },
{
    let url = match extract_json_string(obj, "url".as_bytes()) {
        Some(u) => u,
        None => {
            proof {
                reveal_strlit("");
            }
            "".as_bytes()
        },
    };
    if url.len() == 0 {
        return None;
    }
    if trim {
        match find_subslice(url, "?q=".as_bytes()) {
            Some(q) => {
                let v = slice_subrange(url, 0, q);
                assert(v@ =~= url@.take(q as int));
                Some(v)
            },
            None => Some(url),
        }
    } else {
        Some(url)
    }
}

pub open spec fn is_blank(b: u8) -> bool {
    b == 32 || b == 9 || b == 10 || b == 13
}

/// The first position from `i` that is not blank.
pub open spec fn skip_blank(s: Seq<u8>, i: int) -> int
    decreases s.len() - i,
{
    if 0 <= i < s.len() && is_blank(s[i]) {
        skip_blank(s, i + 1)
    } else {
        i
    }
}

/// The first position from `i` holding `q`, or the end.
pub open spec fn scan_to(s: Seq<u8>, i: int, q: u8) -> int
    decreases s.len() - i,
{
    if 0 <= i < s.len() && s[i] != q {
        scan_to(s, i + 1, q)
    } else {
        i
    }
}

/// The quoted value of attribute `attr` in the tag text `tag`, looking at
/// the first place `attr` occurs.
pub open spec fn attr_value_of(tag: Seq<u8>, attr: Seq<u8>) -> Option<Seq<u8>> {
    match find(tag, attr) {
        None => None,
        Some(p) => {
            let i = skip_blank(tag, p + attr.len());
            if i >= tag.len() || tag[i] != 61 {
                None
            } else {
                let j = skip_blank(tag, i + 1);
                if j >= tag.len() || (tag[j] != 34 && tag[j] != 39) {
                    None
                } else {
                    let e = scan_to(tag, j + 1, tag[j]);
                    if e >= tag.len() {
                        None
                    } else {
                        Some(tag.subrange(j + 1, e))
                    }
                }
            }
        },
    }
}

fn skip_blank_exec(s: &[u8], i: usize) -> (r: usize)
    requires
        i <= s@.len(),
    ensures
        r == skip_blank(s@, i as int),
        i <= r <= s@.len(),
{
    let mut k = i;
    while k < s.len() && (s[k] == 32 || s[k] == 9 || s[k] == 10 || s[k] == 13)
        invariant
            i <= k <= s@.len(),
            skip_blank(s@, i as int) == skip_blank(s@, k as int),
        decreases s@.len() - k,
    {
        k = k + 1;
    }
    k
}

pub fn attr_value<'a>(tag: &'a [u8], attr: &[u8]) -> (r: Option<&'a [u8]>)
    ensures
        match r {
            Some(v) => attr_value_of(tag@, attr@) == Some(v@),
            None => attr_value_of(tag@, attr@) is None,
        },
{
    let p = match find_subslice(tag, attr) {
        Some(p) => p,
        None => return None,
    };
    let tl: usize = tag.len();
    assert(p + attr@.len() <= tl);
    let i = skip_blank_exec(tag, p + attr.len());
    if i >= tag.len() || tag[i] != 61 {
        return None;
    }
    let j = skip_blank_exec(tag, i + 1);
    if j >= tag.len() || (tag[j] != 34 && tag[j] != 39) {
        return None;
    }
    let q = tag[j];
    let mut e = j + 1;
    while e < tag.len() && tag[e] != q
        invariant
            j + 1 <= e <= tag@.len(),
            j < tag@.len(),
            q == tag@[j as int],
            scan_to(tag@, j + 1, q) == scan_to(tag@, e as int, q),
        decreases tag@.len() - e,
    {
        e = e + 1;
    }
    if e >= tag.len() {
        return None;
    }
    let v = slice_subrange(tag, j + 1, e);
    Some(v)
}

/// What stripping markup has made of a text: the text kept, and whether
/// it stands inside a tag or an entity.
pub struct StripState {
    pub text: Seq<u8>,
    pub in_tag: bool,
    pub entity: bool,
}

/// The state after one more byte: tags are dropped, an entity becomes a
/// space, other bytes are kept.
pub open spec fn strip_step(st: StripState, b: u8) -> StripState {
    if b == 60 {
        StripState { in_tag: true, ..st }
    } else if b == 62 {
        StripState { in_tag: false, ..st }
    } else if st.in_tag {
        st
    } else if b == 38 {
        StripState { text: st.text.push(32), entity: true, ..st }
    } else if st.entity {
        StripState { entity: b != 59, ..st }
    } else {
        StripState { text: st.text.push(b), ..st }
    }
}

pub open spec fn strip_state(src: Seq<u8>) -> StripState
    decreases src.len(),
{
    if src.len() == 0 {
        StripState { text: Seq::empty(), in_tag: false, entity: false }
    } else {
        strip_step(strip_state(src.drop_last()), src.last())
    }
}

/// The text of `src` without its markup, as far as `cap` bytes hold it.
pub open spec fn stripped_text(src: Seq<u8>, cap: nat) -> Seq<u8> {
    let t = strip_state(src).text;
    if t.len() <= cap {
        t
    } else {
        t.take(cap as int)
    }
}

/// Writes the text of `src` without its markup into `out`, as far as it
/// holds it; how much was written.
pub fn strip_tags_into(src: &[u8], out: &mut [u8]) -> (n: usize)
    ensures
        final(out)@.len() == old(out)@.len(),
        n == stripped_text(src@, old(out)@.len()).len(),
        final(out)@.take(n as int) == stripped_text(src@, old(out)@.len()),
{
    let ghost cap = out@.len();
    let mut c: usize = 0;
    let mut in_tag = false;
    let mut entity = false;
    let mut i: usize = 0;
    while i < src.len()
        invariant
            0 <= i <= src@.len(),
            out@.len() == cap,
            strip_state(src@.take(i as int)).in_tag == in_tag,
            strip_state(src@.take(i as int)).entity == entity,
            c as int == if strip_state(src@.take(i as int)).text.len() <= cap {
                strip_state(src@.take(i as int)).text.len() as int
            } else {
                cap as int
            },
            out@.take(c as int) == strip_state(src@.take(i as int)).text.take(c as int),
        decreases src@.len() - i,
    {
        let b = src[i];
        proof {
            assert(src@.take(i + 1).drop_last() =~= src@.take(i as int));
            assert(src@.take(i + 1).last() == b);
        }
        let ghost prev = strip_state(src@.take(i as int)).text;
        if b == 60 {
            in_tag = true;
        } else if b == 62 {
            in_tag = false;
        } else if in_tag {
        } else if b == 38 {
            entity = true;
            let ghost o0 = out@;
            let ghost c0 = c as int;
            if c < out.len() {
                out[c] = 32;
                c = c + 1;
                proof {
                    assert(c0 == prev.len());
                    assert(out@.take(c as int) =~= o0.take(c0).push(32));
                    assert(o0.take(c0) =~= prev.take(c0));
                    assert(prev.take(c0) =~= prev);
                }
            }
            proof {
                assert(out@.take(c as int) =~= prev.push(32).take(c as int));
            }
        } else if entity {
            if b == 59 {
                entity = false;
            }
        } else {
            let ghost o0 = out@;
            let ghost c0 = c as int;
            if c < out.len() {
                out[c] = b;
                c = c + 1;
                proof {
                    assert(c0 == prev.len());
                    assert(out@.take(c as int) =~= o0.take(c0).push(b));
                    assert(o0.take(c0) =~= prev.take(c0));
                    assert(prev.take(c0) =~= prev);
                }
            }
            proof {
                assert(out@.take(c as int) =~= prev.push(b).take(c as int));
            }
        }
        i = i + 1;
    }
    proof {
        assert(src@.take(src@.len() as int) =~= src@);
        let t = strip_state(src@).text;
        assert(out@.take(c as int) =~= stripped_text(src@, cap));
    }
    c
}

/// `<` and the tag's name: how a tag opens.
pub open spec fn tag_open(tag: Seq<u8>) -> Seq<u8> {
    seq![60u8] + tag
}

/// The first tag opening with `open` from `pos` on whose text (up to its
/// `>`) holds `class`: where it starts and where it ends.
pub open spec fn tag_from(html: Seq<u8>, open: Seq<u8>, class: Seq<u8>, pos: int) -> Option<(int, int)>
    decreases html.len() - pos,
{
    if pos < 0 || pos > html.len() {
        None
    } else {
        match find(html.skip(pos), open) {
            None => None,
            Some(rel) => {
                let start = pos + rel;
                match find(html.skip(start), ">".spec_bytes()) {
                    None => None,
                    Some(e) => {
                        let end = start + e + 1;
                        if find(html.subrange(start, end), class) is Some {
                            Some((start, end))
                        } else if end <= pos || end > html.len() {
                            None
                        } else {
                            tag_from(html, open, class, end)
                        }
                    },
                }
            },
        }
    }
}

/// The first `<tag ...>` whose text holds `class` (names longer than 15
/// bytes are never found).
pub open spec fn tag_by_class(html: Seq<u8>, tag: Seq<u8>, class: Seq<u8>) -> Option<(int, int)> {
    if tag.len() + 1 > 16 {
        None
    } else {
        tag_from(html, tag_open(tag), class, 0)
    }
}

fn open_of(tag: &[u8], lead: &[u8]) -> (v: Vec<u8>)
    ensures
        v@ == lead@ + tag@,
{
    let mut v: Vec<u8> = Vec::new();
    let mut k: usize = 0;
    while k < lead.len()
        invariant
            0 <= k <= lead@.len(),
            v@ == lead@.take(k as int),
        decreases lead@.len() - k,
    {
        v.push(lead[k]);
        k = k + 1;
        assert(v@ =~= lead@.take(k as int));
    }
    assert(lead@.take(lead@.len() as int) =~= lead@);
    let mut k: usize = 0;
    while k < tag.len()
        invariant
            0 <= k <= tag@.len(),
            v@ == lead@ + tag@.take(k as int),
        decreases tag@.len() - k,
    {
        v.push(tag[k]);
        k = k + 1;
        assert(v@ =~= lead@ + tag@.take(k as int));
    }
    assert(tag@.take(tag@.len() as int) =~= tag@);
    v
}

pub fn find_tag_by_class(html: &[u8], tag: &[u8], class: &[u8]) -> (r: Option<(usize, usize)>)
    ensures
        match r {
            Some((s, e)) => tag_by_class(html@, tag@, class@) == Some((s as int, e as int)) && s < e <= html@.len(),
            None => tag_by_class(html@, tag@, class@) is None,
        },
{
    proof {
        reveal_strlit(">");
        reveal_strlit("<");
        broadcast use vstd::string::is_ascii_spec_bytes;
        assert(vstd::string::is_ascii(">"));
        assert(vstd::string::is_ascii("<"));
    }
    if tag.len() > 15 {
        return None;
    }
    let open = open_of(tag, "<".as_bytes());
    assert(open@ =~= tag_open(tag@));
    let hl: usize = html.len();
    let mut pos: usize = 0;
    loop
        invariant
            hl == html@.len(),
            pos <= hl,
            open@ == tag_open(tag@),
            tag@.len() <= 15,
            tag_by_class(html@, tag@, class@) == tag_from(html@, open@, class@, pos as int),
        decreases hl - pos,
    {
        let rest = slice_subrange(html, pos, hl);
        assert(rest@ =~= html@.skip(pos as int));
        let rel = match find_subslice(rest, open.as_slice()) {
            Some(r) => r,
            None => return None,
        };
        assert(pos + rel + open@.len() <= hl);
        let start = pos + rel;
        let rest2 = slice_subrange(html, start, hl);
        assert(rest2@ =~= html@.skip(start as int));
        let e = match find_subslice(rest2, ">".as_bytes()) {
            Some(e) => e,
            None => return None,
        };
        assert(start + e + 1 <= hl);
        let end = start + e + 1;
        let tb = slice_subrange(html, start, end);
        if crate::json_utils::contains_bytes(tb, class) {
            return Some((start, end));
        }
        pos = end;
    }
}

/// The text inside the first `<tag ...>` holding `class`, up to `</tag>`,
/// without markup and as far as `cap` bytes hold it.
pub open spec fn element_text_of(html: Seq<u8>, tag: Seq<u8>, class: Seq<u8>, cap: nat) -> Option<Seq<u8>> {
    match tag_by_class(html, tag, class) {
        None => None,
        Some((s, e)) => if tag.len() + 3 > 16 {
            None
        } else {
            match find(html.skip(e), "</".spec_bytes() + tag + ">".spec_bytes()) {
                None => None,
                Some(q) => Some(stripped_text(html.subrange(e, e + q), cap)),
            }
        },
    }
}

/// Writes the text of the first `<tag ...>` holding `class` into `out`;
/// how long it is, or `None` when there is no such element.
pub fn element_text(html: &[u8], tag: &[u8], class: &[u8], out: &mut [u8]) -> (r: Option<usize>)
    ensures
        final(out)@.len() == old(out)@.len(),
        match r {
            Some(n) => element_text_of(html@, tag@, class@, old(out)@.len()) == Some(final(out)@.take(n as int))
                && n <= old(out)@.len(),
            None => element_text_of(html@, tag@, class@, old(out)@.len()) is None,
        },
{
    proof {
        reveal_strlit("</");
    }
    let (s, e) = match find_tag_by_class(html, tag, class) {
        Some(v) => v,
        None => return None,
    };
    if tag.len() > 13 {
        return None;
    }
    let lead = open_of(tag, "</".as_bytes());
    proof {
        reveal_strlit(">");
    }
    let close = open_of(">".as_bytes(), lead.as_slice());
    assert(close@ =~= "</".spec_bytes() + tag@ + ">".spec_bytes());
    let hl: usize = html.len();
    let rest = slice_subrange(html, e, hl);
    assert(rest@ =~= html@.skip(e as int));
    let q = match find_subslice(rest, close.as_slice()) {
        Some(q) => q,
        None => return None,
    };
    assert(e + q <= hl);
    let inner = slice_subrange(html, e, e + q);
    let n = strip_tags_into(inner, out);
    Some(n)
}

/// The `src` of the cover image: a `mip-img`, else an `img`, holding
/// `class`.
pub open spec fn img_src_of(html: Seq<u8>, class: Seq<u8>) -> Option<Seq<u8>> {
    let fallback = match tag_by_class(html, "img".spec_bytes(), class) {
        Some((s, e)) => attr_value_of(html.subrange(s, e), "src".spec_bytes()),
        None => None,
    };
    match tag_by_class(html, "mip-img".spec_bytes(), class) {
        Some((s, e)) => match attr_value_of(html.subrange(s, e), "src".spec_bytes()) {
            Some(v) => Some(v),
            None => fallback,
        },
        None => fallback,
    }
}

fn src_of_tag<'a>(html: &'a [u8], tag: &[u8], class: &[u8]) -> (r: Option<&'a [u8]>)
    ensures
        match r {
            Some(v) => (match tag_by_class(html@, tag@, class@) {
                Some((s, e)) => attr_value_of(html@.subrange(s, e), "src".spec_bytes()),
                None => None,
            }) == Some(v@),
            None => (match tag_by_class(html@, tag@, class@) {
                Some((s, e)) => attr_value_of(html@.subrange(s, e), "src".spec_bytes()),
                None => None,
            }) is None,
        },
{
    match find_tag_by_class(html, tag, class) {
        Some((s, e)) => {
            let tb = slice_subrange(html, s, e);
            attr_value(tb, "src".as_bytes())
        },
        None => None,
    }
}

pub fn img_src<'a>(html: &'a [u8], class: &[u8]) -> (r: Option<&'a [u8]>)
    ensures
        match r {
            Some(v) => img_src_of(html@, class@) == Some(v@),
            None => img_src_of(html@, class@) is None,
        },
{
    match src_of_tag(html, "mip-img".as_bytes(), class) {
        Some(v) => Some(v),
        None => src_of_tag(html, "img".as_bytes(), class),
    }
}

pub const MAX_GENRES: usize = 24;

/// The genre names a manga page links from `pos` on: the text of each
/// link to a genre or to the latest list, those with any text.
pub open spec fn genre_names_from(html: Seq<u8>, pos: int, cap: nat) -> Seq<Seq<u8>>
    decreases html.len() - pos,
{
    if pos < 0 || pos > html.len() {
        Seq::empty()
    } else {
        match find(html.skip(pos), "<a".spec_bytes()) {
            None => Seq::empty(),
            Some(rel) => {
                let start = pos + rel;
                match find(html.skip(start), ">".spec_bytes()) {
                    None => Seq::empty(),
                    Some(e) => {
                        let end = start + e + 1;
                        if end <= pos || end > html.len() {
                            Seq::empty()
                        } else if find(html.subrange(start, end), "genre=".spec_bytes()) is None && find(
                            html.subrange(start, end),
                            "/latest/".spec_bytes(),
                        ) is None {
                            genre_names_from(html, end, cap)
                        } else {
                            match find(html.skip(end), "</a>".spec_bytes()) {
                                None => Seq::empty(),
                                Some(q) => {
                                    let next = end + q + 4;
                                    let text = trimmed(stripped_text(html.subrange(end, end + q), cap));
                                    if next <= pos || next > html.len() {
                                        Seq::empty()
                                    } else if text.len() == 0 {
                                        genre_names_from(html, next, cap)
                                    } else {
                                        seq![text] + genre_names_from(html, next, cap)
                                    }
                                },
                            }
                        }
                    },
                }
            },
        }
    }
}

/// The tags of a manga page: its first 24 genre names, quoted.
pub open spec fn genre_items(html: Seq<u8>, cap: nat) -> Seq<Seq<u8>> {
    let all = genre_names_from(html, 0, cap);
    let names = if all.len() <= MAX_GENRES {
        all
    } else {
        all.take(MAX_GENRES as int)
    };
    Seq::new(names.len(), |k: int| "\"".spec_bytes() + escaped(names[k]) + "\"".spec_bytes())
}

fn put_genre(payload: &mut [u8], c: &mut usize, k: usize, name: &[u8]) -> (ok: bool)
    requires
        *old(c) <= old(payload)@.len(),
    ensures
        appended(
            old(payload)@,
            *old(c) as int,
            item_unit(k > 0, "\"".spec_bytes() + escaped(name@) + "\"".spec_bytes()),
            final(payload)@,
            *final(c) as int,
            ok,
        ),
        final(payload)@.len() == old(payload)@.len(),
        *final(c) <= final(payload)@.len(),
{
    proof {
        reveal_strlit(",");
        reveal_strlit("");
    }
    let lead: &str = if k > 0 { "," } else { "" };
    let ps = [Piece::Text(lead), Piece::Text("\""), Piece::Escaped(name), Piece::Text("\"")];
    proof {
        reveal_with_fuel(pieces_bytes, 5);
        assert(pieces_bytes(ps@) =~= item_unit(k > 0, "\"".spec_bytes() + escaped(name@) + "\"".spec_bytes()));
    }
    put_pieces(payload, c, &ps)
}

/// Writes the tags of a manga page, reading each link's text through
/// `scratch`; whether they all fit.
#[verifier::rlimit(60)]
fn write_genre_tags(html: &[u8], scratch: &mut [u8], payload: &mut [u8], c: &mut usize) -> (ok: bool)
    requires
        *old(c) <= old(payload)@.len(),
    ensures
        appended(old(payload)@, *old(c) as int, joined(genre_items(html@, old(scratch)@.len())), final(payload)@, *final(c) as int, ok),
        final(payload)@.len() == old(payload)@.len(),
        final(scratch)@.len() == old(scratch)@.len(),
        *final(c) <= final(payload)@.len(),
{
    proof {
        reveal_strlit("<a");
        reveal_strlit(">");
        reveal_strlit("</a>");
        reveal_strlit("genre=");
        reveal_strlit("/latest/");
        broadcast use vstd::string::is_ascii_spec_bytes;
        assert(vstd::string::is_ascii("<a"));
        assert(vstd::string::is_ascii(">"));
        assert(vstd::string::is_ascii("</a>"));
        assert("<a".spec_bytes().len() == 2);
        assert("</a>".spec_bytes().len() == 4);
        assert(">".spec_bytes().len() == 1);
    }
    let ghost cap = scratch@.len();
    let ghost d0 = payload@;
    let ghost c0 = *c as int;
    let ghost all = genre_names_from(html@, 0, cap);
    let ghost items = genre_items(html@, cap);
    let ghost names = if all.len() <= MAX_GENRES { all } else { all.take(MAX_GENRES as int) };
    let hl: usize = html.len();
    let mut pos: usize = 0;
    let mut k: usize = 0;
    proof {
        lemma_joined_empty(items);
        crate::json_utils::lemma_appended_start(d0, c0);
        assert(all.take(0) + genre_names_from(html@, 0, cap) =~= all);
    }
    loop
        invariant_except_break
            all == all.take(k as int) + genre_names_from(html@, pos as int, cap),
            k < MAX_GENRES,
        invariant
            d0 == old(payload)@,
            c0 == *old(c) as int,
            0 <= c0 <= d0.len(),
            payload@.len() == d0.len(),
            scratch@.len() == cap,
            cap == old(scratch)@.len(),
            *c <= payload@.len(),
            hl == html@.len(),
            all == genre_names_from(html@, 0, cap),
            names == (if all.len() <= MAX_GENRES { all } else { all.take(MAX_GENRES as int) }),
            items == genre_items(html@, cap),
            items.len() == names.len(),
            pos <= hl,
            k <= all.len(),
            k <= MAX_GENRES,
            appended(d0, c0, joined(items.take(k as int)), payload@, *c as int, true),
        ensures
            k == names.len(),
            appended(d0, c0, joined(items), payload@, *c as int, true),
        decreases hl - pos,
    {
        proof {
            reveal_strlit("<a");
            reveal_strlit("</a>");
            broadcast use vstd::string::is_ascii_spec_bytes;
            assert(vstd::string::is_ascii("<a"));
            assert(vstd::string::is_ascii("</a>"));
            assert("<a".spec_bytes().len() == 2);
            assert("</a>".spec_bytes().len() == 4);
        }
        let rest = slice_subrange(html, pos, hl);
        assert(rest@ =~= html@.skip(pos as int));
        let rel = match find_subslice(rest, "<a".as_bytes()) {
            Some(r) => r,
            None => {
                proof {
                    assert(genre_names_from(html@, pos as int, cap) =~= Seq::<Seq<u8>>::empty());
                    assert(all.take(k as int) + Seq::<Seq<u8>>::empty() =~= all.take(k as int));
                    assert(names =~= all);
                    assert(items.take(k as int) =~= items);
                }
                break;
            },
        };
        assert(pos + rel + 2 <= hl);
        let start = pos + rel;
        let rest2 = slice_subrange(html, start, hl);
        assert(rest2@ =~= html@.skip(start as int));
        let e = match find_subslice(rest2, ">".as_bytes()) {
            Some(e) => e,
            None => {
                proof {
                    assert(genre_names_from(html@, pos as int, cap) =~= Seq::<Seq<u8>>::empty());
                    assert(all.take(k as int) + Seq::<Seq<u8>>::empty() =~= all.take(k as int));
                    assert(names =~= all);
                    assert(items.take(k as int) =~= items);
                }
                break;
            },
        };
        assert(start + e + 1 <= hl);
        let end = start + e + 1;
        let tb = slice_subrange(html, start, end);
        if !crate::json_utils::contains_bytes(tb, "genre=".as_bytes())
            && !crate::json_utils::contains_bytes(tb, "/latest/".as_bytes()) {
            assert(genre_names_from(html@, pos as int, cap) == genre_names_from(html@, end as int, cap));
            pos = end;
            continue;
        }
        let rest3 = slice_subrange(html, end, hl);
        assert(rest3@ =~= html@.skip(end as int));
        let q = match find_subslice(rest3, "</a>".as_bytes()) {
            Some(q) => q,
            None => {
                proof {
                    assert(genre_names_from(html@, pos as int, cap) =~= Seq::<Seq<u8>>::empty());
                    assert(all.take(k as int) + Seq::<Seq<u8>>::empty() =~= all.take(k as int));
                    assert(names =~= all);
                    assert(items.take(k as int) =~= items);
                }
                break;
            },
        };
        assert(end + q + 4 <= hl);
        let inner = slice_subrange(html, end, end + q);
        let n = strip_tags_into(inner, scratch);
        let kept = slice_subrange(scratch, 0, n);
        let text = crate::sources::dm5::trim_ascii(kept);
        let next = end + q + 4;
        assert(kept@ =~= stripped_text(html@.subrange(end as int, end + q), cap));
        if text.len() == 0 {
            assert(genre_names_from(html@, pos as int, cap) == genre_names_from(html@, next as int, cap));
            pos = next;
            continue;
        }
        assert(genre_names_from(html@, pos as int, cap) == seq![text@] + genre_names_from(html@, next as int, cap));
        let ghost j = k as int;
        proof {
            assert(all[j] == text@) by {
                assert((all.take(j) + genre_names_from(html@, pos as int, cap))[j] == text@);
            }
            assert(names[j] == text@);
            assert(items[j] == "\"".spec_bytes() + escaped(text@) + "\"".spec_bytes());
        }
        let ghost dm = payload@;
        let ghost cm = *c as int;
        if !put_genre(payload, c, k, text) {
            proof {
                lemma_item_fail(items, j, d0, c0, dm, cm, payload@, *c as int);
            }
            return false;
        }
        proof {
            lemma_item_ok(items, j, d0, c0, dm, cm, payload@, *c as int);
            assert(all.take(j + 1) + genre_names_from(html@, next as int, cap) =~= all) by {
                assert(all.take(j + 1) =~= all.take(j).push(text@));
            }
        }
        k = k + 1;
        pos = next;
        if k >= MAX_GENRES {
            proof {
                assert(names =~= all.take(MAX_GENRES as int));
                assert(items.take(k as int) =~= items);
            }
            break;
        }
    }
    true
}

pub const TITLE_CAP: usize = 256;
pub const DESC_CAP: usize = 2048;

/// The trimmed text of an element, when the page has it.
pub open spec fn trimmed_text(html: Seq<u8>, tag: Seq<u8>, class: Seq<u8>, cap: nat) -> Option<Seq<u8>> {
    match element_text_of(html, tag, class, cap) {
        Some(t) => Some(trimmed(t)),
        None => None,
    }
}

/// What a manga page shows: its title (else the code), cover, author and
/// description.
pub open spec fn detail_fields(html: Seq<u8>, code: Seq<u8>) -> (Seq<u8>, Seq<u8>, Seq<u8>, Seq<u8>) {
    let title = match trimmed_text(html, "h2".spec_bytes(), "mg-title".spec_bytes(), TITLE_CAP as nat) {
        Some(t) => t,
        None => code,
    };
    let cover = match img_src_of(html, "mg-cover".spec_bytes()) {
        Some(v) => v,
        None => Seq::empty(),
    };
    let author = match trimmed_text(html, "p".spec_bytes(), "mg-sub-title".spec_bytes(), TITLE_CAP as nat) {
        Some(t) => t,
        None => Seq::empty(),
    };
    let desc = match trimmed_text(html, "mip-showmore".spec_bytes(), "manga-introduction".spec_bytes(), DESC_CAP as nat) {
        Some(t) => t,
        None => match trimmed_text(html, "mip-showmore".spec_bytes(), "showmore".spec_bytes(), DESC_CAP as nat) {
            Some(t) => t,
            None => Seq::empty(),
        },
    };
    (title, cover, author, desc)
}

pub open spec fn detail_head(code: Seq<u8>, title: Seq<u8>, desc: Seq<u8>, cover: Seq<u8>, author: Seq<u8>) -> Seq<u8> {
    "{\"manga\":{\"id\":\"manga:".spec_bytes() + escaped(code) + "\",\"title\":\"".spec_bytes() + escaped(title)
        + "\",\"alternateTitles\":[],\"description\":\"".spec_bytes() + escaped(desc)
        + "\",\"cover\":{\"kind\":\"url\",\"url\":\"".spec_bytes() + escaped(cover) + "\"},\"authors\":[".spec_bytes() + (
    if author.len() > 0 {
        "\"".spec_bytes() + escaped(author) + "\"".spec_bytes()
    } else {
        Seq::empty()
    }) + "],\"artists\":[],\"status\":\"unknown\",\"contentRating\":\"safe\",\"language\":\"zh\",\"tags\":[".spec_bytes()
}

pub open spec fn detail_tail(url: Seq<u8>) -> Seq<u8> {
    "],\"links\":[{\"kind\":\"source\",\"url\":\"".spec_bytes() + escaped(url) + "\"}]}}".spec_bytes()
}

/// The manga answer for the page `html` of manga `code` at `url`, its
/// link texts read through `cap` bytes.
pub open spec fn detail_json(html: Seq<u8>, code: Seq<u8>, url: Seq<u8>, cap: nat) -> Seq<u8> {
    let (title, cover, author, desc) = detail_fields(html, code);
    detail_head(code, title, desc, cover, author) + joined(genre_items(html, cap)) + detail_tail(url)
}

/// The trimmed text of an element read through a buffer of `cap` bytes.
fn text_of(html: &[u8], tag: &str, class: &str, cap: usize) -> (r: Option<Vec<u8>>)
    ensures
        match r {
            Some(v) => trimmed_text(html@, tag.spec_bytes(), class.spec_bytes(), cap as nat) == Some(v@),
            None => trimmed_text(html@, tag.spec_bytes(), class.spec_bytes(), cap as nat) is None,
        },
{
    let mut buf: Vec<u8> = vec![0u8; cap];
    match element_text(html, tag.as_bytes(), class.as_bytes(), buf.as_mut_slice()) {
        Some(n) => {
            let kept = slice_subrange(buf.as_slice(), 0, n);
            let t = crate::sources::dm5::trim_ascii(kept);
            Some(slice_to_vec(t))
        },
        None => None,
    }
}

fn slice_to_vec(s: &[u8]) -> (v: Vec<u8>)
    ensures
        v@ == s@,
{
    let mut v: Vec<u8> = Vec::new();
    let mut k: usize = 0;
    while k < s.len()
        invariant
            0 <= k <= s@.len(),
            v@ == s@.take(k as int),
        decreases s@.len() - k,
    {
        v.push(s[k]);
        k = k + 1;
        assert(v@ =~= s@.take(k as int));
    }
    assert(s@.take(s@.len() as int) =~= s@);
    v
}

/// Builds the manga answer for the page `html` of manga `code` at `url`,
/// reading link texts through `scratch`; its length, or `None` when it
/// does not fit.
#[verifier::rlimit(60)]
pub fn detail_payload(html: &[u8], code: &[u8], url: &[u8], scratch: &mut [u8], payload: &mut [u8]) -> (r: Option<usize>)
    ensures
        final(payload)@.len() == old(payload)@.len(),
        final(scratch)@.len() == old(scratch)@.len(),
        match r {
            Some(n) => n == detail_json(html@, code@, url@, old(scratch)@.len()).len() && final(payload)@.take(n as int)
                == detail_json(html@, code@, url@, old(scratch)@.len()),
            None => detail_json(html@, code@, url@, old(scratch)@.len()).len() > old(payload)@.len(),
        },
{
    proof {
        reveal_strlit("");
        reveal_strlit("\"");
    }
    let title_v = text_of(html, "h2", "mg-title", TITLE_CAP);
    let cover: &[u8] = match img_src(html, "mg-cover".as_bytes()) {
        Some(v) => v,
        None => "".as_bytes(),
    };
    let author_v = match text_of(html, "p", "mg-sub-title", TITLE_CAP) {
        Some(v) => v,
        None => Vec::new(),
    };
    let desc_v = match text_of(html, "mip-showmore", "manga-introduction", DESC_CAP) {
        Some(v) => v,
        None => match text_of(html, "mip-showmore", "showmore", DESC_CAP) {
            Some(v) => v,
            None => Vec::new(),
        },
    };
    let title: &[u8] = match &title_v {
        Some(v) => v.as_slice(),
        None => code,
    };
    let author = author_v.as_slice();
    let desc = desc_v.as_slice();
    let ghost fields = detail_fields(html@, code@);
    assert(title@ == fields.0);
    assert(cover@ == fields.1);
    assert(author@ == fields.2);
    assert(desc@ == fields.3);
    let q: &str = if author.len() > 0 { "\"" } else { "" };
    let a = [
        Piece::Text("{\"manga\":{\"id\":\"manga:"),
        Piece::Escaped(code),
        Piece::Text("\",\"title\":\""),
        Piece::Escaped(title),
        Piece::Text("\",\"alternateTitles\":[],\"description\":\""),
        Piece::Escaped(desc),
        Piece::Text("\",\"cover\":{\"kind\":\"url\",\"url\":\""),
        Piece::Escaped(cover),
        Piece::Text("\"},\"authors\":["),
        Piece::Text(q),
        Piece::Escaped(author),
        Piece::Text(q),
        Piece::Text("],\"artists\":[],\"status\":\"unknown\",\"contentRating\":\"safe\",\"language\":\"zh\",\"tags\":["),
    ];
    let z = [
        Piece::Text("],\"links\":[{\"kind\":\"source\",\"url\":\""),
        Piece::Escaped(url),
        Piece::Text("\"}]}}"),
    ];
    let ghost head = detail_head(code@, fields.0, fields.3, fields.1, fields.2);
    let ghost tags = joined(genre_items(html@, scratch@.len()));
    let ghost tail = detail_tail(url@);
    proof {
        if author@.len() == 0 {
            assert(escaped(author@) =~= Seq::<u8>::empty()) by {
                reveal_with_fuel(crate::json_utils::per_byte, 1);
            }
        }
        reveal_with_fuel(pieces_bytes, 14);
        assert(pieces_bytes(a@) =~= head);
        assert(pieces_bytes(z@) =~= tail);
        assert(detail_json(html@, code@, url@, scratch@.len()) =~= head + tags + tail);
    }
    let ghost d0 = payload@;
    let mut c: usize = 0;
    if !put_pieces(payload, &mut c, &a) {
        return None;
    }
    let ghost d1 = payload@;
    let ghost c1 = c as int;
    let ok = write_genre_tags(html, scratch, payload, &mut c);
    proof {
        lemma_appended_then(d0, 0, head, d1, c1, tags, payload@, c as int, ok);
    }
    if !ok {
        return None;
    }
    let ghost d2 = payload@;
    let ghost c2 = c as int;
    let ok = put_pieces(payload, &mut c, &z);
    proof {
        lemma_appended_then(d0, 0, head + tags, d2, c2, tail, payload@, c as int, ok);
    }
    if !ok {
        return None;
    }
    proof {
        assert(payload@.take(c as int) =~= head + tags + tail);
    }
    Some(c)
}

} // verus!
