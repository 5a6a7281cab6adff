//! DM5 chapter images: the page script answers with a packed script whose
//! words stand for entries of a dictionary; unpacking it gives the image
//! host (`pix`) and the image paths (`pvalue`).
use vstd::prelude::*;
use vstd::slice::slice_subrange;
use vstd::string::StringSliceAdditionalSpecFns;
use crate::fetch::FetchError;
use crate::json_utils::{
    appended, decimal, escaped, find, find_subslice, lemma_appended_fail_extend, lemma_appended_start,
    lemma_appended_then, matches_at, skip_while, splice,
};
use crate::units::{byte_units, wrote_units};
use crate::json_utils::escape_fn;
use crate::pieces::{
    concat_units, item_units, lemma_units_empty, lemma_units_item_fail, lemma_units_item_ok, pieces_units,
    flat, flat_written, item_unit, lemma_flat_empty, lemma_unit_fail, lemma_unit_ok, pieces_bytes,
    put_item, Piece,
};
use crate::sources::dm5::{
    base_value, extract_js_string, fits_usize, is_word, is_word_byte, js_string_of, not_byte_fn,
    parse_base,
};
use crate::sources::text::{digits_fit, digits_fit_exec, parse_decimal, parse_decimal_exec};

verus! {

/// At most this many dictionary words are kept.
pub const MAX_WORDS: usize = 128;

/// The pieces of `s` between `|` separators (one more than separators).
pub open spec fn bar_pieces(s: Seq<u8>) -> Seq<Seq<u8>>
    decreases s.len(),
{
    if s.len() == 0 {
        seq![Seq::empty()]
    } else {
        let p = bar_pieces(s.drop_last());
        if s.last() == 124 {
            p.push(Seq::empty())
        } else {
            p.update(p.len() - 1, p.last().push(s.last()))
        }
    }
}

proof fn lemma_bar_pieces_len(s: Seq<u8>)
    ensures
        bar_pieces(s).len() >= 1,
    decreases s.len(),
{
    if s.len() > 0 {
        lemma_bar_pieces_len(s.drop_last());
    }
}

/// The pieces of `s.take(i)`: those closed by a bar are the first pieces
/// of `s` too.
proof fn lemma_bar_pieces_prefix(s: Seq<u8>, i: int)
    requires
        0 <= i <= s.len(),
    ensures
        bar_pieces(s.take(i)).len() >= 1,
        bar_pieces(s.take(i)).len() <= bar_pieces(s).len(),
        forall|k: int|
            0 <= k < bar_pieces(s.take(i)).len() - 1 ==> #[trigger] bar_pieces(s.take(i))[k]
                == bar_pieces(s)[k],
    decreases s.len() - i,
{
    lemma_bar_pieces_len(s.take(i));
    if i < s.len() {
        lemma_bar_pieces_prefix(s, i + 1);
        assert(s.take(i + 1).drop_last() =~= s.take(i));
        let p = bar_pieces(s.take(i));
        let q = bar_pieces(s.take(i + 1));
        assert forall|k: int| 0 <= k < p.len() - 1 implies #[trigger] p[k] == bar_pieces(s)[k] by {
            assert(q[k] == p[k]);
        }
    } else {
        assert(s.take(i) =~= s);
    }
}

/// The first `MAX_WORDS` pieces of `dict` between bars.
pub open spec fn dictionary(dict: Seq<u8>) -> Seq<Seq<u8>> {
    let p = bar_pieces(dict);
    p.take(if p.len() < MAX_WORDS {
        p.len() as int
    } else {
        MAX_WORDS as int
    })
}

pub open spec fn views(ws: Seq<&[u8]>) -> Seq<Seq<u8>> {
    ws.map_values(|w: &[u8]| w@)
}

/// Splits the dictionary at its bars, keeping the first `MAX_WORDS` words.
pub fn split_words<'a>(dict: &'a [u8]) -> (r: Vec<&'a [u8]>)
    requires
        dict@.len() < usize::MAX,
    ensures
        views(r@) == dictionary(dict@),
{
    let mut words: Vec<&'a [u8]> = Vec::new();
    let mut s: usize = 0;
    let mut i: usize = 0;
    proof {
        lemma_bar_pieces_len(dict@);
        assert(dict@.take(0) =~= Seq::<u8>::empty());
        assert(views(words@) =~= bar_pieces(dict@.take(0)).drop_last());
    }
    while i <= dict.len() && words.len() < MAX_WORDS
        invariant
            dict@.len() < usize::MAX,
            0 <= s <= dict@.len() + 1,
            i <= dict@.len() + 1,
            words@.len() <= MAX_WORDS,
            i <= dict@.len() ==> s <= i && views(words@) == bar_pieces(dict@.take(i as int)).drop_last()
                && bar_pieces(dict@.take(i as int)).last() == dict@.subrange(s as int, i as int),
            i > dict@.len() ==> views(words@) == bar_pieces(dict@),
        decreases dict@.len() + 1 - i,
    {
        let ghost p = bar_pieces(dict@.take(i as int));
        proof {
            lemma_bar_pieces_len(dict@.take(i as int));
        }
        if i == dict.len() || dict[i] == 124 {
            let w = slice_subrange(dict, s, i);
            words.push(w);
            proof {
                assert(views(words@) =~= p.drop_last().push(p.last()));
                assert(p.drop_last().push(p.last()) =~= p);
                if i == dict.len() {
                    assert(dict@.take(i as int) =~= dict@);
                } else {
                    assert(dict@.take(i + 1).drop_last() =~= dict@.take(i as int));
                    let q = bar_pieces(dict@.take(i + 1));
                    assert(q == p.push(Seq::empty()));
                    assert(q.drop_last() =~= p);
                    assert(q.last() =~= dict@.subrange(i + 1, i + 1));
                }
            }
            s = i + 1;
        } else {
            proof {
                assert(dict@.take(i + 1).drop_last() =~= dict@.take(i as int));
                let q = bar_pieces(dict@.take(i + 1));
                assert(q == p.update(p.len() - 1, p.last().push(dict@[i as int])));
                assert(q.drop_last() =~= p.drop_last());
                assert(q.last() =~= dict@.subrange(s as int, i + 1));
            }
        }
        i = i + 1;
    }
    proof {
        let full = bar_pieces(dict@);
        if i <= dict@.len() {
            lemma_bar_pieces_prefix(dict@, i as int);
            let p = bar_pieces(dict@.take(i as int));
            assert(views(words@) =~= full.take(MAX_WORDS as int)) by {
                assert forall|k: int| 0 <= k < MAX_WORDS implies #[trigger] views(words@)[k] == full[k] by {
                    assert(views(words@)[k] == p[k]);
                }
            }
        } else {
            assert(full.take(full.len() as int) =~= full);
        }
    }
    words
}

/// Reading any prefix of `tok` in base `base` stays within a `usize`.
pub open spec fn token_fits(tok: Seq<u8>, base: nat) -> bool {
    forall|k: int| 0 <= k <= tok.len() ==> fits_usize(#[trigger] base_value(tok.take(k), base))
}

/// Whether reading `bytes` in base `base` stays within a `usize`.
pub fn token_fits_exec(bytes: &[u8], base: usize) -> (r: bool)
    ensures
        r == token_fits(bytes@, base as nat),
{
    let mut n: usize = 0;
    let mut i: usize = 0;
    assert(bytes@.take(0) =~= Seq::<u8>::empty());
    while i < bytes.len()
        invariant
            0 <= i <= bytes@.len(),
            base_value(bytes@.take(i as int), base as nat) == Some(n as nat),
            forall|k: int| 0 <= k <= i ==> fits_usize(#[trigger] base_value(bytes@.take(k), base as nat)),
        decreases bytes@.len() - i,
    {
        let b = bytes[i];
        assert(bytes@.take(i + 1).drop_last() =~= bytes@.take(i as int));
        let valid = (b >= 48 && b <= 57) || (b >= 97 && b <= 122) || (b >= 65 && b <= 90);
        let v: usize = if b >= 48 && b <= 57 {
            (b - 48) as usize
        } else if b >= 97 && b <= 122 {
            (b - 97 + 10) as usize
        } else if b >= 65 && b <= 90 {
            (b - 65 + 36) as usize
        } else {
            0
        };
        if !valid || v >= base {
            proof {
                assert forall|k: int| i < k <= bytes@.len() implies fits_usize(
                    #[trigger] base_value(bytes@.take(k), base as nat),
                ) by {
                    let t = bytes@.take(k);
                    assert(t.take(i + 1) =~= bytes@.take(i + 1));
                    crate::sources::dm5::lemma_base_value_none_extends(t, base as nat, i + 1);
                }
            }
            return true;
        }
        let m = match n.checked_mul(base) {
            Some(m) => m,
            None => {
                assert(base_value(bytes@.take(i + 1), base as nat) == Some((n * base + v) as nat));
                return false;
            },
        };
        let x = match m.checked_add(v) {
            Some(x) => x,
            None => {
                assert(base_value(bytes@.take(i + 1), base as nat) == Some((n * base + v) as nat));
                return false;
            },
        };
        assert(base_value(bytes@.take(i + 1), base as nat) == Some((n * base + v) as nat));
        n = x;
        i = i + 1;
    }
    assert(bytes@.take(bytes@.len() as int) =~= bytes@);
    true
}

pub open spec fn word_fn() -> spec_fn(u8) -> bool {
    |b: u8| is_word_byte(b)
}

/// How unpacking a packed script goes.
pub enum Unpack {
    /// The unpacked text.
    Text(Seq<u8>),
    /// It does not fit the buffer.
    TooLong,
    /// A word's value in the base overflows a `usize`.
    Broken,
}

/// Unpacks `data` from `i` with `n` bytes already written into a buffer of
/// `cap`: each word whose value in `base` indexes a non-empty dictionary
/// word becomes that word, other words stay; a backslash keeps the byte
/// after it; other bytes stay.
pub open spec fn unpack_from(data: Seq<u8>, i: int, base: nat, words: Seq<Seq<u8>>, n: int, cap: int) -> Unpack
    decreases data.len() - i,
{
    if i < 0 || i >= data.len() {
        Unpack::Text(Seq::empty())
    } else if is_word_byte(data[i]) {
        let j = skip_while(data, i, word_fn());
        if j <= i || j > data.len() {
            Unpack::Text(Seq::empty())
        } else {
            let tok = data.subrange(i, j);
            if !token_fits(tok, base) {
                Unpack::Broken
            } else {
                let idx = match base_value(tok, base) {
                    Some(v) => v,
                    None => usize::MAX as nat,
                };
                let piece = if idx < words.len() && words[idx as int].len() > 0 {
                    words[idx as int]
                } else {
                    tok
                };
                if n + piece.len() > cap {
                    Unpack::TooLong
                } else {
                    match unpack_from(data, j, base, words, n + piece.len(), cap) {
                        Unpack::Text(r) => Unpack::Text(piece + r),
                        other => other,
                    }
                }
            }
        }
    } else if data[i] == 92 && i + 1 < data.len() {
        if n + 1 > cap {
            Unpack::TooLong
        } else {
            match unpack_from(data, i + 2, base, words, n + 1, cap) {
                Unpack::Text(r) => Unpack::Text(seq![data[i + 1]] + r),
                other => other,
            }
        }
    } else {
        if n + 1 > cap {
            Unpack::TooLong
        } else {
            match unpack_from(data, i + 1, base, words, n + 1, cap) {
                Unpack::Text(r) => Unpack::Text(seq![data[i]] + r),
                other => other,
            }
        }
    }
}

/// `w` followed by what an unpacking gives.
pub open spec fn after_written(w: Seq<u8>, u: Unpack) -> Unpack {
    match u {
        Unpack::Text(r) => Unpack::Text(w + r),
        other => other,
    }
}

/// What [`unpack`] ends with.
pub enum Unpacked {
    Len(usize),
    TooLong,
    Broken,
}

/// Unpacks `data` from `start` into `out`.
pub fn unpack(data: &[u8], start: usize, base: usize, words: &Vec<&[u8]>, out: &mut [u8]) -> (r: Unpacked)
    requires
        start <= data@.len(),
    ensures
        final(out)@.len() == old(out)@.len(),
        match unpack_from(data@, start as int, base as nat, views(words@), 0, old(out)@.len() as int) {
            Unpack::Text(t) => r matches Unpacked::Len(n) && n == t.len() && n <= old(out)@.len()
                && final(out)@.take(n as int) == t,
            Unpack::TooLong => r matches Unpacked::TooLong,
            Unpack::Broken => r matches Unpacked::Broken,
        },
{
    let ghost ws = views(words@);
    let ghost cap = out@.len() as int;
    let ghost whole = unpack_from(data@, start as int, base as nat, ws, 0, cap);
    let mut o: usize = 0;
    let mut p: usize = start;
    assert(out@.take(0) =~= Seq::<u8>::empty());
    assert(after_written(Seq::<u8>::empty(), whole) == whole) by {
        if let Unpack::Text(t) = whole {
            assert(Seq::<u8>::empty() + t =~= t);
        }
    }
    while p < data.len()
        invariant
            start <= p <= data@.len(),
            o <= cap,
            cap == out@.len(),
            cap == old(out)@.len(),
            ws == views(words@),
            whole == unpack_from(data@, start as int, base as nat, ws, 0, cap),
            whole == after_written(out@.take(o as int), unpack_from(data@, p as int, base as nat, ws, o as int, cap)),
        decreases data@.len() - p,
    {
        let b = data[p];
        let ghost before = out@;
        let ghost w = out@.take(o as int);
        if is_word(b) {
            let tstart = p;
            let ghost wf = word_fn();
            while p < data.len() && is_word(data[p])
                invariant
                    tstart <= p <= data@.len(),
                    wf == word_fn(),
                    skip_while(data@, tstart as int, wf) == skip_while(data@, p as int, wf),
                decreases data@.len() - p,
            {
                p = p + 1;
            }
            let tok = slice_subrange(data, tstart, p);
            if !token_fits_exec(tok, base) {
                return Unpacked::Broken;
            }
            let idx = parse_base(tok, base);
            let piece: &[u8] = if idx < words.len() && words[idx].len() > 0 {
                words[idx]
            } else {
                tok
            };
            assert(piece@ == (if idx < ws.len() && ws[idx as int].len() > 0 {
                ws[idx as int]
            } else {
                tok@
            }));
            if !crate::json_utils::write_bytes(out, &mut o, piece) {
                return Unpacked::TooLong;
            }
            proof {
                assert(out@.take(o as int) =~= w + piece@);
                let rest = unpack_from(data@, p as int, base as nat, ws, o as int, cap);
                if let Unpack::Text(r) = rest {
                    assert(w + piece@ + r =~= w + (piece@ + r));
                }
            }
        } else if b == 92 && p + 1 < data.len() {
            if o >= out.len() {
                return Unpacked::TooLong;
            }
            out[o] = data[p + 1];
            proof {
                assert(out@.take(o + 1) =~= w + seq![data@[p + 1]]);
                let rest = unpack_from(data@, p + 2, base as nat, ws, o + 1, cap);
                if let Unpack::Text(r) = rest {
                    assert(w + seq![data@[p + 1]] + r =~= w + (seq![data@[p + 1]] + r));
                }
            }
            o = o + 1;
            p = p + 2;
        } else {
            if o >= out.len() {
                return Unpacked::TooLong;
            }
            out[o] = b;
            proof {
                assert(out@.take(o + 1) =~= w + seq![b]);
                let rest = unpack_from(data@, p + 1, base as nat, ws, o + 1, cap);
                if let Unpack::Text(r) = rest {
                    assert(w + seq![b] + r =~= w + (seq![b] + r));
                }
            }
            o = o + 1;
            p = p + 1;
        }
    }
    proof {
        assert(out@.take(o as int) + Seq::<u8>::empty() =~= out@.take(o as int));
    }
    Unpacked::Len(o)
}

/// The image paths of the unpacked script from `pos`: quoted strings
/// separated by `,"`.
pub open spec fn paths_from(u: Seq<u8>, pos: int) -> Seq<Seq<u8>>
    decreases u.len() - pos,
{
    if pos < 0 || pos >= u.len() {
        Seq::empty()
    } else {
        match find(u.subrange(pos, u.len() as int), "\"".spec_bytes()) {
            None => Seq::empty(),
            Some(v) => {
                let end = pos + v;
                if end < pos || end >= u.len() {
                    Seq::empty()
                } else {
                    seq![u.subrange(pos, end)] + if end + 3 <= u.len() && u.subrange(end + 1, end + 3)
                        == ",\"".spec_bytes() {
                        paths_from(u, end + 3)
                    } else {
                        Seq::empty()
                    }
                }
            },
        }
    }
}

pub const PVALUE_MARKER: &'static str = "pvalue=[\"";

/// The image host and where the path list starts in an unpacked script.
pub open spec fn image_parts(u: Seq<u8>) -> Option<(Seq<u8>, int)> {
    match js_string_of(u, "pix=\"".spec_bytes()) {
        None => None,
        Some(pix) => match find(u, PVALUE_MARKER.spec_bytes()) {
            None => None,
            Some(a) => Some((pix, a + 9)),
        },
    }
}

/// The page entry of image `path`, numbered `k`, of chapter `cid` of manga
/// `manga`.
pub open spec fn image_page_json(manga: Seq<u8>, cid: Seq<u8>, k: int, pix: Seq<u8>, path: Seq<u8>) -> Seq<u8> {
    "{\"id\":\"page:".spec_bytes() + escaped(manga) + ":".spec_bytes() + escaped(cid) + ":".spec_bytes()
        + decimal(k as nat) + "\",\"index\":".spec_bytes() + decimal(k as nat)
        + ",\"image\":{\"kind\":\"url\",\"url\":\"".spec_bytes() + escaped(pix) + escaped(path)
        + "\"}}".spec_bytes()
}

/// The page entries of `paths`, numbered from `w0`, each after a comma
/// unless it is the very first page.
pub open spec fn image_units(manga: Seq<u8>, cid: Seq<u8>, pix: Seq<u8>, paths: Seq<Seq<u8>>, w0: int) -> Seq<Seq<u8>> {
    Seq::new(
        paths.len(),
        |k: int| item_unit(w0 + k > 0, image_page_json(manga, cid, w0 + k, pix, paths[k])),
    )
}

/// The units the page entry of image `path` is written in.
pub open spec fn image_page_units(manga: Seq<u8>, cid: Seq<u8>, k: int, pix: Seq<u8>, path: Seq<u8>) -> Seq<Seq<u8>> {
    seq!["{\"id\":\"page:".spec_bytes()] + byte_units(manga, escape_fn()) + seq![":".spec_bytes()] + byte_units(
        cid,
        escape_fn(),
    ) + seq![
        ":".spec_bytes(),
        decimal(k as nat),
        "\",\"index\":".spec_bytes(),
        decimal(k as nat),
        ",\"image\":{\"kind\":\"url\",\"url\":\"".spec_bytes(),
    ] + byte_units(pix, escape_fn()) + byte_units(path, escape_fn()) + seq!["\"}}".spec_bytes()]
}

/// The page entries of `paths`, numbered from `w0`, as the units they are
/// written in.
pub open spec fn image_unit_items(manga: Seq<u8>, cid: Seq<u8>, pix: Seq<u8>, paths: Seq<Seq<u8>>, w0: int) -> Seq<Seq<Seq<u8>>> {
    Seq::new(paths.len(), |k: int| item_units(w0 + k > 0, image_page_units(manga, cid, w0 + k, pix, paths[k])))
}

#[verifier::rlimit(50)]
/// Writes the page entries of an unpacked script after `c`, numbered on
/// from `*written`, and returns how many; an error when the script lacks
/// its image host or path list, or an entry does not fit (those before it
/// went out).
pub fn write_image_pages(
    unpacked: &[u8],
    manga: &[u8],
    cid: &[u8],
    payload: &mut [u8],
    c: &mut usize,
    written: &mut usize,
) -> (r: Result<usize, FetchError>)
    requires
        *old(c) <= old(payload)@.len(),
        *old(written) + unpacked@.len() < usize::MAX,
    ensures
        final(payload)@.len() == old(payload)@.len(),
        *final(c) <= final(payload)@.len(),
        match image_parts(unpacked@) {
            None => r == Err::<usize, FetchError>(FetchError::Network) && final(payload)@ == old(payload)@
                && *final(c) == *old(c) && *final(written) == *old(written),
            Some((pix, st)) => {
                let us = image_units(manga@, cid@, pix, paths_from(unpacked@, st), *old(written) as int);
                &&& appended(old(payload)@, *old(c) as int, flat(us), final(payload)@, *final(c) as int, r is Ok)
                &&& wrote_units(
                    old(payload)@,
                    *old(c) as int,
                    concat_units(image_unit_items(manga@, cid@, pix, paths_from(unpacked@, st), *old(written) as int)),
                    final(payload)@,
                    *final(c) as int,
                    r is Ok,
                )
                &&& r is Ok ==> r == Ok::<usize, FetchError>(us.len() as usize) && *final(written) == *old(written) + us.len()
                &&& r is Err ==> r == Err::<usize, FetchError>(FetchError::Network) && flat_written(
                    us,
                    *final(written) - *old(written),
                    *old(c) as int,
                    *final(c) as int,
                ) && *final(written) - *old(written) < us.len()
            },
        },
{
    let pix = match extract_js_string(unpacked, "pix=\"".as_bytes()) {
        Some(v) => v,
        None => return Err(FetchError::Network),
    };
    let arr = match find_subslice(unpacked, PVALUE_MARKER.as_bytes()) {
        Some(v) => v,
        None => return Err(FetchError::Network),
    };
    proof {
        reveal_strlit("pvalue=[\"");
        broadcast use vstd::string::is_ascii_spec_bytes;
        assert(vstd::string::is_ascii(PVALUE_MARKER));
        assert(PVALUE_MARKER.spec_bytes().len() == 9);
        reveal_strlit(",\"");
        assert(vstd::string::is_ascii(",\""));
        assert(",\"".spec_bytes() =~= seq![44u8, 34u8]);
    }
    let arr_start = arr + 9;
    assert(image_parts(unpacked@) == Some((pix@, arr_start as int)));
    let ghost d0 = payload@;
    let ghost c0 = *c as int;
    let ghost w0 = *written as int;
    let ghost paths = paths_from(unpacked@, arr_start as int);
    let ghost us = image_units(manga@, cid@, pix@, paths, w0);
    let ghost xs = image_unit_items(manga@, cid@, pix@, paths, w0);
    let mut pos = arr_start;
    let mut added: usize = 0;
    proof {
        lemma_flat_empty(us);
        lemma_units_empty(xs, d0, c0);
        lemma_appended_start(d0, c0);
        assert(paths.take(0) =~= Seq::<Seq<u8>>::empty());
        assert(paths =~= paths.take(0) + paths_from(unpacked@, pos as int));
    }
    loop
        invariant_except_break
            paths == paths.take(added as int) + paths_from(unpacked@, pos as int),
            appended(d0, c0, flat(us.take(added as int)), payload@, *c as int, true),
            wrote_units(d0, c0, concat_units(xs.take(added as int)), payload@, *c as int, true),
        invariant
            arr_start <= pos,
            added <= paths.len(),
            *written == w0 + added,
            w0 + unpacked@.len() < usize::MAX,
            added + arr_start <= pos,
            pos <= unpacked@.len() + 3,
            d0 == old(payload)@,
            c0 == *old(c) as int,
            w0 == *old(written) as int,
            ",\"".spec_bytes() == seq![44u8, 34u8],
            image_parts(unpacked@) == Some((pix@, arr_start as int)),
            paths == paths_from(unpacked@, arr_start as int),
            us == image_units(manga@, cid@, pix@, paths, w0),
            xs == image_unit_items(manga@, cid@, pix@, paths, w0),
            d0.len() == payload@.len(),
            0 <= c0 <= d0.len(),
            *c <= payload@.len(),
        ensures
            added == paths.len(),
            appended(d0, c0, flat(us), payload@, *c as int, true),
            wrote_units(d0, c0, concat_units(xs), payload@, *c as int, true),
        decreases unpacked@.len() + 3 - pos,
    {
        if pos >= unpacked.len() {
            proof {
                assert(paths =~= paths.take(added as int));
                assert(us.take(added as int) =~= us);
                assert(xs.take(added as int) =~= xs);
            }
            break;
        }
        let rest = slice_subrange(unpacked, pos, unpacked.len());
        let end = match find_subslice(rest, "\"".as_bytes()) {
            Some(v) => pos + v,
            None => {
                proof {
                    assert(paths =~= paths.take(added as int));
                    assert(us.take(added as int) =~= us);
                assert(xs.take(added as int) =~= xs);
                }
                break;
            },
        };
        let path = slice_subrange(unpacked, pos, end);
        let ghost k = added as int;
        let ghost tail = if end + 3 <= unpacked@.len() && unpacked@.subrange(end + 1, end + 3) == ",\"".spec_bytes() {
            paths_from(unpacked@, end + 3)
        } else {
            Seq::<Seq<u8>>::empty()
        };
        proof {
            assert(paths_from(unpacked@, pos as int) == seq![path@] + tail);
            assert(paths.take(k + 1) =~= paths.take(k).push(path@));
            assert(paths =~= paths.take(k + 1) + tail);
            assert(paths[k] == path@);
        }
        let ps = [
            Piece::Text("{\"id\":\"page:"),
            Piece::Escaped(manga),
            Piece::Text(":"),
            Piece::Escaped(cid),
            Piece::Text(":"),
            Piece::Number(*written),
            Piece::Text("\",\"index\":"),
            Piece::Number(*written),
            Piece::Text(",\"image\":{\"kind\":\"url\",\"url\":\""),
            Piece::Escaped(pix),
            Piece::Escaped(path),
            Piece::Text("\"}}"),
        ];
        proof {
            reveal_with_fuel(pieces_bytes, 13);
            assert(pieces_bytes(ps@) =~= image_page_json(manga@, cid@, w0 + k, pix@, path@));
            assert(us[k] == item_unit(w0 + k > 0, image_page_json(manga@, cid@, w0 + k, pix@, path@)));
            reveal_with_fuel(pieces_units, 13);
            assert(pieces_units(ps@) =~= image_page_units(manga@, cid@, w0 + k, pix@, path@));
            assert(xs[k] == item_units(w0 + k > 0, image_page_units(manga@, cid@, w0 + k, pix@, path@)));
        }
        let ghost dm = payload@;
        let ghost cm = *c as int;
        let ok = put_item(payload, c, *written == 0, &ps);
        if !ok {
            proof {
                lemma_unit_fail(us, k, d0, c0, dm, cm, payload@, *c as int);
                lemma_units_item_fail(xs, k, d0, c0, dm, cm, payload@, *c as int);
            }
            return Err(FetchError::Network);
        }
        proof {
            lemma_unit_ok(us, k, d0, c0, dm, cm, payload@, *c as int);
            lemma_units_item_ok(xs, k, d0, c0, dm, cm, payload@, *c as int);
        }
        *written = *written + 1;
        added = added + 1;
        pos = end + 1;
        if unpacked.len() >= 2 && pos <= unpacked.len() - 2 && unpacked[pos] == 44 && unpacked[pos + 1] == 34 {
            proof {
                assert(unpacked@.subrange(end + 1, end + 3) =~= seq![44u8, 34u8]);
            }
            pos = pos + 2;
        } else {
            proof {
                if end + 3 <= unpacked@.len() && unpacked@.subrange(end + 1, end + 3) == ",\"".spec_bytes() {
                    assert(unpacked@.subrange(end + 1, end + 3)[0] == unpacked@[end + 1]);
                    assert(unpacked@.subrange(end + 1, end + 3)[1] == unpacked@[end + 2]);
                }
                assert(paths =~= paths.take(added as int));
                assert(us.take(added as int) =~= us);
                assert(xs.take(added as int) =~= xs);
            }
            break;
        }
    }
    Ok(added)
}

/// Where the packed words start and end in a page script, and where the
/// base after them starts and ends (at the next comma).
pub open spec fn packed_head(packed: Seq<u8>) -> Option<(int, int, int, int)> {
    match find(packed, "}('".spec_bytes()) {
        None => None,
        Some(a) => {
            let ps = a + 3;
            match find(packed.subrange(ps, packed.len() as int), "',".spec_bytes()) {
                None => None,
                Some(b) => {
                    let pe = ps + b;
                    let after = pe + 2;
                    Some((ps, pe, after, skip_while(packed, after, not_byte_fn(44))))
                },
            }
        },
    }
}

pub const SPLIT_MARKER: &'static str = "'.split('|')";

/// The dictionary of a page script: the quoted text after the comma that
/// ends the base, up to `'.split('|')`.
pub open spec fn packed_dict(packed: Seq<u8>, comma: int) -> Option<Seq<u8>> {
    match find(packed.subrange(comma, packed.len() as int), "'".spec_bytes()) {
        None => None,
        Some(d) => {
            let ds = comma + d + 1;
            match find(packed.subrange(ds, packed.len() as int), SPLIT_MARKER.spec_bytes()) {
                None => None,
                Some(e) => Some(packed.subrange(ds, ds + e)),
            }
        },
    }
}

/// The size of the buffer a page script is unpacked into.
pub const UNPACK_CAP: usize = 8192;

/// How a batch of chapter images went.
pub enum ImageBatch {
    /// This many pages were added.
    Added(usize),
    /// The script could not be used, or a page did not fit.
    Failed(FetchError),
    /// A number in the script overflows a `usize`.
    Broken,
}

/// The unpacked text of a page script, when it unpacks.
pub open spec fn unpacked_script(packed: Seq<u8>) -> Option<Seq<u8>> {
    match packed_head(packed) {
        None => None,
        Some((ps, pe, after, comma)) => {
            let digits = packed.subrange(after, comma);
            match parse_decimal(digits) {
                None => None,
                Some(base) => if !digits_fit(digits, usize::MAX as nat) {
                    None
                } else {
                    match packed_dict(packed, comma) {
                    None => None,
                    Some(dict) => match unpack_from(
                        packed.take(pe),
                        ps,
                        base,
                        dictionary(dict),
                        0,
                        UNPACK_CAP as int,
                    ) {
                        Unpack::Text(u) => Some(u),
                        _ => None,
                    },
                    }
                },
            }
        },
    }
}

/// Whether unpacking a page script meets a number that overflows.
pub open spec fn script_overflows(packed: Seq<u8>) -> bool {
    match packed_head(packed) {
        None => false,
        Some((ps, pe, after, comma)) => {
            let digits = packed.subrange(after, comma);
            if !digits_fit(digits, usize::MAX as nat) {
                true
            } else {
                match parse_decimal(digits) {
                    None => false,
                    Some(base) => match packed_dict(packed, comma) {
                        None => false,
                        Some(dict) => unpack_from(
                            packed.take(pe),
                            ps,
                            base,
                            dictionary(dict),
                            0,
                            UNPACK_CAP as int,
                        ) is Broken,
                    },
                }
            }
        },
    }
}

/// Unpacks a chapter page script and writes its pages after `c`, numbered
/// on from `*written`; how many were added.
#[verifier::rlimit(40)]
pub fn unpack_and_write_images(
    packed: &[u8],
    manga: &[u8],
    cid: &[u8],
    payload: &mut [u8],
    c: &mut usize,
    written: &mut usize,
) -> (r: ImageBatch)
    requires
        *old(c) <= old(payload)@.len(),
        *old(written) < usize::MAX - UNPACK_CAP,
        packed@.len() < usize::MAX,
    ensures
        final(payload)@.len() == old(payload)@.len(),
        *final(c) <= final(payload)@.len(),
        (r is Broken) == script_overflows(packed@),
        match unpacked_script(packed@) {
            None => !script_overflows(packed@) ==> r == ImageBatch::Failed(FetchError::Network),
            Some(u) => match image_parts(u) {
                None => r == ImageBatch::Failed(FetchError::Network),
                Some((pix, st)) => {
                    let us = image_units(manga@, cid@, pix, paths_from(u, st), *old(written) as int);
                    &&& appended(old(payload)@, *old(c) as int, flat(us), final(payload)@, *final(c) as int, r is Added)
                    &&& wrote_units(
                        old(payload)@,
                        *old(c) as int,
                        concat_units(image_unit_items(manga@, cid@, pix, paths_from(u, st), *old(written) as int)),
                        final(payload)@,
                        *final(c) as int,
                        r is Added,
                    )
                    &&& r is Added ==> r == ImageBatch::Added(us.len() as usize) && *final(written) == *old(written) + us.len()
                    &&& !(r is Added) ==> r == ImageBatch::Failed(FetchError::Network) && flat_written(
                        us,
                        *final(written) - *old(written),
                        *old(c) as int,
                        *final(c) as int,
                    ) && *final(written) - *old(written) < us.len()
                },
            },
        },
        match unpacked_script(packed@) {
            Some(u) => image_parts(u) is Some,
            None => true,
        } || (final(payload)@ == old(payload)@ && *final(c) == *old(c) && *final(written) == *old(written)),
{
    let a = match find_subslice(packed, "}('".as_bytes()) {
        Some(v) => v,
        None => return ImageBatch::Failed(FetchError::Network),
    };
    proof {
        reveal_strlit("}('");
        reveal_strlit("',");
        broadcast use vstd::string::is_ascii_spec_bytes;
        assert(vstd::string::is_ascii("}('"));
        assert(vstd::string::is_ascii("',"));
        assert("}('".spec_bytes().len() == 3);
        assert("',".spec_bytes().len() == 2);
    }
    let ps = a + 3;
    let b = match find_subslice(slice_subrange(packed, ps, packed.len()), "',".as_bytes()) {
        Some(v) => v,
        None => return ImageBatch::Failed(FetchError::Network),
    };
    let pe = ps + b;
    let after = pe + 2;
    let ghost nc = not_byte_fn(44);
    let mut comma = after;
    while comma < packed.len() && packed[comma] != 44
        invariant
            after <= comma <= packed@.len(),
            nc == not_byte_fn(44),
            skip_while(packed@, after as int, nc) == skip_while(packed@, comma as int, nc),
        decreases packed@.len() - comma,
    {
        comma = comma + 1;
    }
    assert(packed_head(packed@) == Some((ps as int, pe as int, after as int, comma as int)));
    let digits = slice_subrange(packed, after, comma);
    if !digits_fit_exec(digits) {
        return ImageBatch::Broken;
    }
    let base = match parse_decimal_exec(digits) {
        Some(v) => v,
        None => return ImageBatch::Failed(FetchError::Network),
    };
    let d = match find_subslice(slice_subrange(packed, comma, packed.len()), "'".as_bytes()) {
        Some(v) => v,
        None => return ImageBatch::Failed(FetchError::Network),
    };
    let ds = comma + d + 1;
    let e = match find_subslice(slice_subrange(packed, ds, packed.len()), SPLIT_MARKER.as_bytes()) {
        Some(v) => v,
        None => return ImageBatch::Failed(FetchError::Network),
    };
    let dict = slice_subrange(packed, ds, ds + e);
    assert(packed_dict(packed@, comma as int) == Some(dict@));
    let words = split_words(dict);
    assert(views(words@) == dictionary(dict@));
    assert(parse_decimal(digits@) == Some(base as nat));
    let mut out: [u8; 8192] = [0; 8192];
    let data = slice_subrange(packed, 0, pe);
    let n = match unpack(data, ps, base, &words, &mut out) {
        Unpacked::Len(n) => n,
        Unpacked::TooLong => return ImageBatch::Failed(FetchError::Network),
        Unpacked::Broken => return ImageBatch::Broken,
    };
    let unpacked = slice_subrange(out.as_slice(), 0, n);
    assert(unpacked_script(packed@) == Some(unpacked@));
    match write_image_pages(unpacked, manga, cid, payload, c, written) {
        Ok(k) => ImageBatch::Added(k),
        Err(e) => ImageBatch::Failed(e),
    }
}

} // verus!
