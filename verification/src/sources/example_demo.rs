//! The demo source: the answers it builds from the JSONPlaceholder API's
//! replies, and its search helper.
use vstd::prelude::*;
use vstd::slice::slice_subrange;
use vstd::string::StringSliceAdditionalSpecFns;
use crate::json_utils::{
    appended, decimal, escaped, extract_json_string, json_string_value, lemma_appended_fail_extend,
    lemma_appended_start, lemma_appended_then, matches_at, matches_at_exec, put_str, skip_while,
};
use crate::units::wrote_units;
use crate::pieces::{
    concat_units, item_units, listed, lemma_units_empty, lemma_units_item_fail, lemma_units_item_ok, list_written,
    lemma_list_written, pieces_units,
    item_unit, joined, joined_written, lemma_item_fail, lemma_item_ok, lemma_joined_empty, lemma_joined_prefix,
    piece_bytes, pieces_bytes, put_item, put_pieces, Piece,
};

verus! {

/// The first position where `needle` occurs in `haystack`; an empty
/// needle occurs at 0.
pub open spec fn first_match(haystack: Seq<u8>, needle: Seq<u8>) -> Option<int> {
    if needle.len() == 0 {
        Some(0)
    } else if exists|i: int| matches_at(haystack, needle, i) {
        Some(choose|i: int| matches_at(haystack, needle, i) && forall|j: int| 0 <= j < i ==> !matches_at(haystack, needle, j))
    } else {
        None
    }
}

/// The first position where `needle` occurs in `haystack`; 0 for an
/// empty needle.
pub fn find_subslice_from(haystack: &[u8], needle: &[u8]) -> (r: Option<usize>)
    ensures
        r == match first_match(haystack@, needle@) {
            Some(i) => Some(i as usize),
            None => None::<usize>,
        },
        match r {
            Some(i) => needle@.len() == 0 && i == 0 || matches_at(haystack@, needle@, i as int),
            None => needle@.len() > 0 && forall|j: int| !matches_at(haystack@, needle@, j),
        },
{
    if needle.len() == 0 {
        return Some(0);
    }
    if haystack.len() < needle.len() {
        return None;
    }
    let last = haystack.len() - needle.len();
    let mut i: usize = 0;
    while i <= last
        invariant
            last + needle.len() == haystack.len(),
            needle@.len() > 0,
            0 <= i <= last + 1,
            forall|j: int| 0 <= j < i ==> !matches_at(haystack@, needle@, j),
        decreases last + 1 - i,
    {
        if matches_at_exec(haystack, needle, i) {
            proof {
                let w = choose|w: int| matches_at(haystack@, needle@, w) && forall|j: int|
                    0 <= j < w ==> !matches_at(haystack@, needle@, j);
                if w < i {
                    assert(!matches_at(haystack@, needle@, w));
                }
                if w > i {
                    assert(!matches_at(haystack@, needle@, i as int));
                }
            }
            return Some(i);
        }
        i = i + 1;
    }
    None
}

/// A value found under a key, or a default.
pub open spec fn or_default(v: Option<Seq<u8>>, d: Seq<u8>) -> Seq<u8> {
    match v {
        Some(x) => x,
        None => d,
    }
}

/// A demo chapter: number `i` of manga `manga_id`.
pub open spec fn demo_chapter(manga_id: Seq<u8>, i: nat) -> Seq<u8> {
    "{\"id\":\"ch:".spec_bytes() + escaped(manga_id) + ":".spec_bytes() + decimal(i)
        + "\",\"mangaId\":\"".spec_bytes() + escaped(manga_id) + "\",\"title\":\"Chapter ".spec_bytes()
        + decimal(i) + "\",\"chapterNumber\":\"".spec_bytes() + decimal(i)
        + "\",\"language\":\"en\",\"pageCount\":1}".spec_bytes()
}

pub const ITEMS_OPEN: &'static str = "{\"items\":[";

pub const LIST_CLOSE: &'static str = "],\"page\":{\"hasMore\":false}}";

/// The chapter list of a demo manga: three chapters.
pub open spec fn demo_chapters_json(manga_id: Seq<u8>) -> Seq<u8> {
    ITEMS_OPEN.spec_bytes() + demo_chapter(manga_id, 1) + ",".spec_bytes() + demo_chapter(manga_id, 2)
        + ",".spec_bytes() + demo_chapter(manga_id, 3) + LIST_CLOSE.spec_bytes()
}

proof fn lemma_pieces_11(ps: Seq<Piece>)
    requires
        ps.len() == 11,
    ensures
        pieces_bytes(ps) == piece_bytes(ps[0]) + piece_bytes(ps[1]) + piece_bytes(ps[2]) + piece_bytes(
            ps[3],
        ) + piece_bytes(ps[4]) + piece_bytes(ps[5]) + piece_bytes(ps[6]) + piece_bytes(ps[7])
            + piece_bytes(ps[8]) + piece_bytes(ps[9]) + piece_bytes(ps[10]),
{
    reveal_with_fuel(pieces_bytes, 12);
    assert(Seq::<u8>::empty() + piece_bytes(ps[0]) =~= piece_bytes(ps[0]));
}

fn put_demo_chapter(payload: &mut [u8], c: &mut usize, first: bool, manga_id: &[u8], i: usize) -> (ok: bool)
    requires
        *old(c) <= old(payload)@.len(),
    ensures
        appended(
            old(payload)@,
            *old(c) as int,
            item_unit(!first, demo_chapter(manga_id@, i as nat)),
            final(payload)@,
            *final(c) as int,
            ok,
        ),
        final(payload)@.len() == old(payload)@.len(),
        *final(c) <= final(payload)@.len(),
{
    let ps = [
        Piece::Text("{\"id\":\"ch:"),
        Piece::Escaped(manga_id),
        Piece::Text(":"),
        Piece::Number(i),
        Piece::Text("\",\"mangaId\":\""),
        Piece::Escaped(manga_id),
        Piece::Text("\",\"title\":\"Chapter "),
        Piece::Number(i),
        Piece::Text("\",\"chapterNumber\":\""),
        Piece::Number(i),
        Piece::Text("\",\"language\":\"en\",\"pageCount\":1}"),
    ];
    proof {
        lemma_pieces_11(ps@);
        assert(pieces_bytes(ps@) =~= demo_chapter(manga_id@, i as nat));
    }
    put_item(payload, c, first, &ps)
}

/// Writes the chapter list of demo manga `manga_id`; its length, or `None`
/// when it does not fit.
pub fn demo_chapters_payload(manga_id: &[u8], payload: &mut [u8]) -> (r: Option<usize>)
    ensures
        final(payload)@.len() == old(payload)@.len(),
        match r {
            Some(n) => n == demo_chapters_json(manga_id@).len() && final(payload)@.take(n as int)
                == demo_chapters_json(manga_id@),
            None => demo_chapters_json(manga_id@).len() > old(payload)@.len(),
        },
{
    let ghost d0 = payload@;
    let ghost whole = demo_chapters_json(manga_id@);
    let ghost u0 = ITEMS_OPEN.spec_bytes();
    let ghost u1 = item_unit(false, demo_chapter(manga_id@, 1));
    let ghost u2 = item_unit(true, demo_chapter(manga_id@, 2));
    let ghost u3 = item_unit(true, demo_chapter(manga_id@, 3));
    let ghost u4 = LIST_CLOSE.spec_bytes();
    proof {
        reveal_strlit("");
        assert(u1 =~= demo_chapter(manga_id@, 1));
        assert(whole =~= u0 + u1 + u2 + u3 + u4);
    }
    let mut c: usize = 0;
    let ok0 = put_str(payload, &mut c, ITEMS_OPEN);
    if !ok0 {
        proof {
            lemma_appended_fail_extend(d0, 0, u0, payload@, c as int, u1 + u2 + u3 + u4);
            assert(u0 + (u1 + u2 + u3 + u4) =~= whole);
        }
        return None;
    }
    let ghost dm = payload@;
    let ghost cm = c as int;
    let ok1 = put_demo_chapter(payload, &mut c, true, manga_id, 1);
    proof {
        lemma_appended_then(d0, 0, u0, dm, cm, u1, payload@, c as int, ok1);
    }
    if !ok1 {
        proof {
            lemma_appended_fail_extend(d0, 0, u0 + u1, payload@, c as int, u2 + u3 + u4);
            assert(u0 + u1 + (u2 + u3 + u4) =~= whole);
        }
        return None;
    }
    let ghost dm = payload@;
    let ghost cm = c as int;
    let ok2 = put_demo_chapter(payload, &mut c, false, manga_id, 2);
    proof {
        lemma_appended_then(d0, 0, u0 + u1, dm, cm, u2, payload@, c as int, ok2);
    }
    if !ok2 {
        proof {
            lemma_appended_fail_extend(d0, 0, u0 + u1 + u2, payload@, c as int, u3 + u4);
            assert(u0 + u1 + u2 + (u3 + u4) =~= whole);
        }
        return None;
    }
    let ghost dm = payload@;
    let ghost cm = c as int;
    let ok3 = put_demo_chapter(payload, &mut c, false, manga_id, 3);
    proof {
        lemma_appended_then(d0, 0, u0 + u1 + u2, dm, cm, u3, payload@, c as int, ok3);
    }
    if !ok3 {
        proof {
            lemma_appended_fail_extend(d0, 0, u0 + u1 + u2 + u3, payload@, c as int, u4);
        }
        return None;
    }
    let ghost dm = payload@;
    let ghost cm = c as int;
    let ok4 = put_str(payload, &mut c, LIST_CLOSE);
    proof {
        lemma_appended_then(d0, 0, u0 + u1 + u2 + u3, dm, cm, u4, payload@, c as int, ok4);
    }
    if !ok4 {
        return None;
    }
    proof {
        assert(payload@.take(c as int) =~= whole);
    }
    Some(c)
}

/// The number of a demo manga id: what follows `demo:`, or the whole id.
pub open spec fn demo_number_of(manga_id: Seq<u8>) -> Seq<u8> {
    if manga_id.len() >= 5 && manga_id.take(5) == "demo:".spec_bytes() {
        manga_id.skip(5)
    } else {
        manga_id
    }
}

/// The number of a demo manga id.
pub fn demo_number(manga_id: &[u8]) -> (r: &[u8])
    ensures
        r@ == demo_number_of(manga_id@),
{
    let prefix = "demo:".as_bytes();
    proof {
        reveal_strlit("demo:");
        broadcast use vstd::string::is_ascii_spec_bytes;
        assert(vstd::string::is_ascii("demo:"));
    }
    if manga_id.len() >= 5 && matches_at_exec(manga_id, prefix, 0) {
        assert(manga_id@.subrange(0, 5) =~= manga_id@.take(5));
        let r = slice_subrange(manga_id, 5, manga_id.len());
        assert(r@ =~= manga_id@.skip(5));
        r
    } else {
        proof {
            if manga_id@.len() >= 5 && manga_id@.take(5) == "demo:".spec_bytes() {
                assert(manga_id@.subrange(0, 5) =~= manga_id@.take(5));
            }
        }
        manga_id
    }
}

pub const DETAIL_TAIL: &'static str =
    "\",\"cover\":{\"kind\":\"none\"},\"authors\":[\"Demo Author\"],\"status\":\"unknown\",\"contentRating\":\"safe\",\"tags\":[\"demo\"],\"links\":[]}}";

/// The manga payload of demo manga number `num` from the API's post.
pub open spec fn demo_manga_json(body: Seq<u8>, num: Seq<u8>) -> Seq<u8> {
    let title = or_default(json_string_value(body, "title".spec_bytes()), "Unknown".spec_bytes());
    let desc = or_default(json_string_value(body, "body".spec_bytes()), Seq::empty());
    "{\"manga\":{\"id\":\"demo:".spec_bytes() + escaped(num) + "\",\"title\":\"".spec_bytes() + escaped(title)
        + "\",\"description\":\"".spec_bytes() + escaped(desc) + DETAIL_TAIL.spec_bytes()
}

/// Writes the manga payload of demo manga number `num` from the API's
/// post; its length, or `None` when it does not fit.
pub fn demo_manga_payload(body: &[u8], num: &[u8], payload: &mut [u8]) -> (r: Option<usize>)
    ensures
        final(payload)@.len() == old(payload)@.len(),
        match r {
            Some(n) => n == demo_manga_json(body@, num@).len() && final(payload)@.take(n as int)
                == demo_manga_json(body@, num@),
            None => demo_manga_json(body@, num@).len() > old(payload)@.len(),
        },
{
    let title = match extract_json_string(body, "title".as_bytes()) {
        Some(v) => v,
        None => "Unknown".as_bytes(),
    };
    let desc = match extract_json_string(body, "body".as_bytes()) {
        Some(v) => v,
        None => "".as_bytes(),
    };
    let ps = [
        Piece::Text("{\"manga\":{\"id\":\"demo:"),
        Piece::Escaped(num),
        Piece::Text("\",\"title\":\""),
        Piece::Escaped(title),
        Piece::Text("\",\"description\":\""),
        Piece::Escaped(desc),
        Piece::Text(DETAIL_TAIL),
    ];
    proof {
        reveal_strlit("");
        reveal_with_fuel(pieces_bytes, 8);
        assert(pieces_bytes(ps@) =~= demo_manga_json(body@, num@));
    }
    let mut c: usize = 0;
    if !put_pieces(payload, &mut c, &ps) {
        return None;
    }
    Some(c)
}

pub const PAGES_JSON: &'static str =
    "{\"pages\":[{\"id\":\"page:0\",\"index\":0,\"image\":{\"kind\":\"placeholder\",\"label\":\"demo-page\",\"width\":800,\"height\":1200}}]}";

/// Writes the page list every demo chapter has: one placeholder page.
pub fn demo_pages_payload(payload: &mut [u8]) -> (r: Option<usize>)
    ensures
        final(payload)@.len() == old(payload)@.len(),
        match r {
            Some(n) => n == PAGES_JSON.spec_bytes().len() && final(payload)@.take(n as int)
                == PAGES_JSON.spec_bytes(),
            None => PAGES_JSON.spec_bytes().len() > old(payload)@.len(),
        },
{
    let mut c: usize = 0;
    if !put_str(payload, &mut c, PAGES_JSON) {
        return None;
    }
    assert(payload@.take(c as int) =~= PAGES_JSON.spec_bytes());
    Some(c)
}

pub const POSTS_URL: &'static str = "https://jsonplaceholder.typicode.com/posts/";

/// The API URL of the post behind demo manga number `num`.
pub open spec fn demo_manga_url_of(num: Seq<u8>) -> Seq<u8> {
    POSTS_URL.spec_bytes() + escaped(num)
}

/// Writes the API URL of the post behind demo manga number `num`; its
/// length, or `None` when it does not fit.
pub fn demo_manga_url(num: &[u8], dst: &mut [u8]) -> (r: Option<usize>)
    ensures
        final(dst)@.len() == old(dst)@.len(),
        match r {
            Some(n) => n == demo_manga_url_of(num@).len() && final(dst)@.take(n as int) == demo_manga_url_of(num@),
            None => demo_manga_url_of(num@).len() > old(dst)@.len(),
        },
{
    let ps = [Piece::Text(POSTS_URL), Piece::Escaped(num)];
    proof {
        reveal_with_fuel(pieces_bytes, 3);
        assert(pieces_bytes(ps@) =~= demo_manga_url_of(num@));
    }
    let mut c: usize = 0;
    if !put_pieces(dst, &mut c, &ps) {
        return None;
    }
    Some(c)
}

/// Bytes passed over between the posts of the API's array.
pub open spec fn is_post_sep(b: u8) -> bool {
    b == 32 || b == 44 || b == 10 || b == 13 || b == 9
}

pub open spec fn post_sep_fn() -> spec_fn(u8) -> bool {
    |b: u8| is_post_sep(b)
}

/// Where the braces opened from `p` (with `depth` already open) close:
/// the position of the `}` that brings the count back to zero. Braces
/// inside strings are counted too.
pub open spec fn brace_end(d: Seq<u8>, p: int, depth: int) -> Option<int>
    decreases d.len() - p,
{
    if p < 0 || p >= d.len() {
        None
    } else if d[p] == 123 {
        brace_end(d, p + 1, depth + 1)
    } else if d[p] == 125 {
        if depth - 1 == 0 {
            Some(p)
        } else {
            brace_end(d, p + 1, depth - 1)
        }
    } else {
        brace_end(d, p + 1, depth)
    }
}

/// The next post from `idx`: its start and the position of its closing
/// brace; `None` at the array's end, or when a post does not close.
pub open spec fn next_post(d: Seq<u8>, idx: int) -> Option<(int, int)>
    decreases d.len() - idx,
{
    if idx < 0 || idx >= d.len() {
        None
    } else {
        let a = skip_while(d, idx, post_sep_fn());
        if a < idx || a >= d.len() || d[a] == 93 {
            None
        } else if d[a] != 123 {
            next_post(d, a + 1)
        } else {
            match brace_end(d, a, 0) {
                None => None,
                Some(e) => Some((a, e)),
            }
        }
    }
}

/// The posts of the API's array from `idx` on.
pub open spec fn posts_from(d: Seq<u8>, idx: int) -> Seq<Seq<u8>>
    decreases d.len() - idx,
{
    match next_post(d, idx) {
        None => Seq::empty(),
        Some((a, e)) => if a < idx || e < a || e >= d.len() {
            Seq::empty()
        } else {
            seq![d.subrange(a, e + 1)] + posts_from(d, e + 1)
        },
    }
}

pub const ITEM_TAIL: &'static str =
    "\",\"cover\":{\"kind\":\"none\"},\"authors\":[],\"status\":\"unknown\",\"contentRating\":\"safe\",\"sourceTags\":[\"demo\"]}";

/// The search item written for a post.
pub open spec fn post_item(obj: Seq<u8>) -> Seq<u8> {
    let id = or_default(json_string_value(obj, "id".spec_bytes()), "0".spec_bytes());
    let title = or_default(json_string_value(obj, "title".spec_bytes()), "Untitled".spec_bytes());
    "{\"id\":\"demo:".spec_bytes() + escaped(id) + "\",\"title\":\"".spec_bytes() + escaped(title)
        + ITEM_TAIL.spec_bytes()
}

pub open spec fn post_item_fn() -> spec_fn(Seq<u8>) -> Seq<u8> {
    |o: Seq<u8>| post_item(o)
}

/// The units the search item of a post is written in.
pub open spec fn post_units(obj: Seq<u8>) -> Seq<Seq<u8>> {
    let id = or_default(json_string_value(obj, "id".spec_bytes()), "0".spec_bytes());
    let title = or_default(json_string_value(obj, "title".spec_bytes()), "Untitled".spec_bytes());
    let e = crate::json_utils::escape_fn();
    seq!["{\"id\":\"demo:".spec_bytes()] + crate::units::byte_units(id, e) + seq!["\",\"title\":\"".spec_bytes()]
        + crate::units::byte_units(title, e) + seq![ITEM_TAIL.spec_bytes()]
}

/// The search items of the API's reply as the units they are written in.
pub open spec fn post_unit_items(body: Seq<u8>) -> Seq<Seq<Seq<u8>>> {
    let posts = posts_from(body, 1);
    listed(Seq::new(posts.len(), |k: int| post_units(posts[k])))
}

/// The search payload written into `cap` bytes: its opening, the items up
/// to the first unit that does not fit, and its footer.
pub open spec fn demo_search_answer(body: Seq<u8>, cap: nat) -> Option<Seq<u8>> {
    list_written(ITEMS_OPEN.spec_bytes(), concat_units(post_unit_items(body)), LIST_CLOSE.spec_bytes(), cap as int)
}

/// The search items of the API's reply: one per post after its first byte.
pub open spec fn post_items(body: Seq<u8>) -> Seq<Seq<u8>> {
    posts_from(body, 1).map_values(post_item_fn())
}

/// The search payload when everything fits.
pub open spec fn demo_search_json(body: Seq<u8>) -> Seq<u8> {
    ITEMS_OPEN.spec_bytes() + joined(post_items(body)) + LIST_CLOSE.spec_bytes()
}

proof fn lemma_skip_bound(d: Seq<u8>, i: int, f: spec_fn(u8) -> bool)
    ensures
        0 <= i ==> i <= skip_while(d, i, f),
        0 <= i <= d.len() ==> skip_while(d, i, f) <= d.len(),
    decreases d.len() - i,
{
    if 0 <= i < d.len() && f(d[i]) {
        lemma_skip_bound(d, i + 1, f);
    }
}

proof fn lemma_brace_end_bound(d: Seq<u8>, p: int, depth: int)
    ensures
        match brace_end(d, p, depth) {
            Some(e) => p <= e < d.len(),
            None => true,
        },
    decreases d.len() - p,
{
    if 0 <= p < d.len() {
        lemma_brace_end_bound(d, p + 1, if d[p] == 123 { depth + 1 } else if d[p] == 125 { depth - 1 } else { depth });
    }
}

proof fn lemma_next_post_bound(d: Seq<u8>, idx: int)
    ensures
        match next_post(d, idx) {
            Some((a, e)) => idx <= a <= e < d.len() && d[a] == 123,
            None => true,
        },
    decreases d.len() - idx,
{
    if 0 <= idx < d.len() {
        let a = skip_while(d, idx, post_sep_fn());
        lemma_skip_bound(d, idx, post_sep_fn());
        if a < d.len() && d[a] != 93 {
            if d[a] != 123 {
                lemma_next_post_bound(d, a + 1);
            } else {
                lemma_brace_end_bound(d, a, 0);
            }
        }
    }
}

/// The next post from `idx`: its start and closing brace.
fn find_next_post(body: &[u8], idx: usize) -> (r: Option<(usize, usize)>)
    requires
        idx <= body@.len(),
    ensures
        match r {
            Some((a, e)) => next_post(body@, idx as int) == Some((a as int, e as int)),
            None => next_post(body@, idx as int) is None,
        },
{
    let ghost sep = post_sep_fn();
    let mut i = idx;
    loop
        invariant
            idx <= i <= body@.len(),
            sep == post_sep_fn(),
            next_post(body@, idx as int) == next_post(body@, i as int),
        decreases body@.len() - i,
    {
        if i >= body.len() {
            return None;
        }
        let ghost i0 = i as int;
        let mut a = i;
        while a < body.len() && (body[a] == 32 || body[a] == 44 || body[a] == 10 || body[a] == 13 || body[a] == 9)
            invariant
                i0 <= a <= body@.len(),
                sep == post_sep_fn(),
                skip_while(body@, i0, sep) == skip_while(body@, a as int, sep),
            decreases body@.len() - a,
        {
            a = a + 1;
        }
        if a >= body.len() || body[a] == 93 {
            return None;
        }
        if body[a] != 123 {
            i = a + 1;
            continue;
        }
        assert(next_post(body@, i as int) == match brace_end(body@, a as int, 0) {
            None => None::<(int, int)>,
            Some(e) => Some((a as int, e)),
        });
        let mut p = a;
        let mut depth: usize = 0;
        while p < body.len()
            invariant
                next_post(body@, idx as int) == match brace_end(body@, a as int, 0) {
                    None => None::<(int, int)>,
                    Some(e) => Some((a as int, e)),
                },
                a <= p <= body@.len(),
                a < body@.len(),
                body@[a as int] == 123,
                depth <= p - a,
                p > a ==> depth >= 1,
                p == a ==> depth == 0,
                brace_end(body@, a as int, 0) == brace_end(body@, p as int, depth as int),
            decreases body@.len() - p,
        {
            let b = body[p];
            if b == 123 {
                depth = depth + 1;
            } else if b == 125 {
                if depth == 1 {
                    return Some((a, p));
                }
                depth = depth - 1;
            }
            p = p + 1;
        }
        return None;
    }
}

/// The search item of a post, after a comma unless it comes first.
fn put_post_item(payload: &mut [u8], c: &mut usize, first: bool, obj: &[u8]) -> (ok: bool)
    requires
        *old(c) <= old(payload)@.len(),
    ensures
        appended(
            old(payload)@,
            *old(c) as int,
            item_unit(!first, post_item(obj@)),
            final(payload)@,
            *final(c) as int,
            ok,
        ),
        wrote_units(old(payload)@, *old(c) as int, item_units(!first, post_units(obj@)), final(payload)@, *final(c) as int, ok),
        final(payload)@.len() == old(payload)@.len(),
        *final(c) <= final(payload)@.len(),
{
    let id = match extract_json_string(obj, "id".as_bytes()) {
        Some(v) => v,
        None => "0".as_bytes(),
    };
    let title = match extract_json_string(obj, "title".as_bytes()) {
        Some(v) => v,
        None => "Untitled".as_bytes(),
    };
    let ps = [
        Piece::Text("{\"id\":\"demo:"),
        Piece::Escaped(id),
        Piece::Text("\",\"title\":\""),
        Piece::Escaped(title),
        Piece::Text(ITEM_TAIL),
    ];
    proof {
        reveal_with_fuel(pieces_bytes, 6);
        assert(pieces_bytes(ps@) =~= post_item(obj@));
        reveal_with_fuel(pieces_units, 6);
        assert(pieces_units(ps@) =~= post_units(obj@));
    }
    put_item(payload, c, first, &ps)
}

/// Writes an item for each post of the API's reply, comma separated,
/// stopping at the first that does not fit; returns how many went out
/// whole.
pub fn write_post_items(body: &[u8], payload: &mut [u8], c: &mut usize) -> (written: usize)
    requires
        *old(c) <= old(payload)@.len(),
        body@.len() < usize::MAX,
    ensures
        appended(
            old(payload)@,
            *old(c) as int,
            joined(post_items(body@)),
            final(payload)@,
            *final(c) as int,
            written == post_items(body@).len(),
        ),
        joined_written(post_items(body@), written as int, *old(c) as int, *final(c) as int),
        wrote_units(
            old(payload)@,
            *old(c) as int,
            concat_units(post_unit_items(body@)),
            final(payload)@,
            *final(c) as int,
            written == post_items(body@).len(),
        ),
        final(payload)@.len() == old(payload)@.len(),
        *final(c) <= final(payload)@.len(),
{
    let ghost d0 = payload@;
    let ghost c0 = *c as int;
    let ghost items = post_items(body@);
    let ghost all = posts_from(body@, 1);
    let ghost xs = post_unit_items(body@);
    let mut idx: usize = if body.len() >= 1 { 1 } else { body.len() };
    let ghost start = idx as int;
    let mut count: usize = 0;
    proof {
        lemma_joined_empty(items);
        lemma_units_empty(xs, d0, c0);
        lemma_appended_start(d0, c0);
        if body@.len() == 0 {
            assert(posts_from(body@, 1) =~= Seq::<Seq<u8>>::empty());
            assert(posts_from(body@, 0) =~= Seq::<Seq<u8>>::empty());
        }
        assert(all.take(0) + posts_from(body@, start) =~= all);
    }
    loop
        invariant_except_break
            all == all.take(count as int) + posts_from(body@, idx as int),
        invariant
            body@.len() < usize::MAX,
            d0 == old(payload)@,
            c0 == *old(c) as int,
            0 <= c0 <= d0.len(),
            payload@.len() == d0.len(),
            *c <= payload@.len(),
            items == post_items(body@),
            all == posts_from(body@, 1),
            posts_from(body@, 1) == posts_from(body@, start),
            items == all.map_values(post_item_fn()),
            start <= idx <= body@.len(),
            count <= all.len(),
            count <= idx,
            appended(d0, c0, joined(items.take(count as int)), payload@, *c as int, true),
            xs == post_unit_items(body@),
            wrote_units(d0, c0, concat_units(xs.take(count as int)), payload@, *c as int, true),
        ensures
            count == all.len(),
            appended(d0, c0, joined(items), payload@, *c as int, true),
            wrote_units(d0, c0, concat_units(xs), payload@, *c as int, true),
        decreases body@.len() - idx,
    {
        let (a, e) = match find_next_post(body, idx) {
            Some(v) => v,
            None => {
                proof {
                    assert(posts_from(body@, idx as int) =~= Seq::<Seq<u8>>::empty());
                    assert(all.take(count as int) =~= all);
                    assert(items.take(count as int) =~= items);
                    assert(xs.take(count as int) =~= xs);
                }
                break;
            },
        };
        proof {
            lemma_next_post_bound(body@, idx as int);
        }
        let obj = slice_subrange(body, a, e + 1);
        let ghost k = count as int;
        assert(posts_from(body@, idx as int) == seq![obj@] + posts_from(body@, e + 1));
        assert(all[k] == obj@) by {
            assert((all.take(k) + posts_from(body@, idx as int))[k] == obj@);
        }
        assert(items[k] == post_item(obj@));
        assert(xs[k] == item_units(k > 0, post_units(obj@)));
        let ghost dm = payload@;
        let ghost cm = *c as int;
        let good = put_post_item(payload, c, count == 0, obj);
        if !good {
            proof {
                lemma_item_fail(items, k, d0, c0, dm, cm, payload@, *c as int);
                lemma_units_item_fail(xs, k, d0, c0, dm, cm, payload@, *c as int);
            }
            return count;
        }
        proof {
            lemma_item_ok(items, k, d0, c0, dm, cm, payload@, *c as int);
            lemma_units_item_ok(xs, k, d0, c0, dm, cm, payload@, *c as int);
            assert(all.take(k + 1) + posts_from(body@, e + 1) =~= all) by {
                assert(all.take(k + 1) =~= all.take(k).push(obj@));
            }
        }
        count = count + 1;
        idx = e + 1;
    }
    count
}

/// Writes the search payload for the API's reply `body`: an item per post
/// (the first byte, the array's bracket, passed over), then the footer.
/// Where the items do not all fit, the footer is still written after
/// those that went out, and the payload is whatever then fits; `None` when
/// the opening or the footer does not fit.
pub fn demo_search_payload(body: &[u8], payload: &mut [u8]) -> (r: Option<usize>)
    requires
        body@.len() < usize::MAX,
    ensures
        final(payload)@.len() == old(payload)@.len(),
        demo_search_json(body@).len() <= old(payload)@.len() ==> r == Some(
            demo_search_json(body@).len() as usize,
        ) && final(payload)@.take(demo_search_json(body@).len() as int) == demo_search_json(body@),
        match r {
            Some(n) => n <= old(payload)@.len() && demo_search_answer(body@, old(payload)@.len()) == Some(
                final(payload)@.take(n as int),
            ),
            None => demo_search_json(body@).len() > old(payload)@.len() && demo_search_answer(body@, old(payload)@.len())
                is None,
        },
{
    let ghost d0 = payload@;
    let ghost items = post_items(body@);
    let mut c: usize = 0;
    if !put_str(payload, &mut c, ITEMS_OPEN) {
        return None;
    }
    let ghost xs = post_unit_items(body@);
    let ghost dh = payload@;
    let ghost ch = c as int;
    let written = write_post_items(body, payload, &mut c);
    let ghost dc = payload@;
    let ghost cc = c as int;
    let okf = put_str(payload, &mut c, LIST_CLOSE);
    proof {
        lemma_list_written(d0, ITEMS_OPEN.spec_bytes(), dh, ch, concat_units(xs), dc, cc, written == items.len(), LIST_CLOSE.spec_bytes(), payload@, c as int, okf);
    }
    if !okf {
        proof {
            if written == items.len() {
                assert(cc == ch + joined(items).len());
            } else {
                crate::pieces::lemma_joined_prefix(items, written as int + 1);
                crate::pieces::lemma_joined_prefix(items, written as int);
            }
        }
        return None;
    }
    proof {
        crate::pieces::lemma_list_text(items, written as int, ITEMS_OPEN.spec_bytes(), LIST_CLOSE.spec_bytes(), d0, dh, ch, dc, cc, payload@, c as int);
        if demo_search_json(body@).len() <= d0.len() {
            if written < items.len() {
                assert(cc < ch + joined(items).len());
                assert(false);
            }
        }
    }
    Some(c)
}

} // verus!
