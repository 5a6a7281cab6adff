//! Writing a run of text pieces into a buffer through a cursor, stopping at
//! the first piece that does not fit, as the hand-chained writers of the
//! sources do.
use vstd::prelude::*;
use vstd::string::StringSliceAdditionalSpecFns;
use crate::json_utils::{
    appended, decimal, escaped, lemma_appended_fail_extend, lemma_appended_then, put_bytes,
    put_escaped, put_reescaped, put_str, put_url_encoded, put_usize, reescaped, url_encoded, escape_fn, url_fn,
    reescape_units_from,
};
use crate::units::{byte_units, lemma_wrote_fail_extend, lemma_wrote_then, wrote_units, cat, fitting};

verus! {

/// One piece of text to write.
#[derive(Clone, Copy)]
pub enum Piece<'a> {
    /// A constant, written as it is.
    Text(&'a str),
    /// Bytes written as they are.
    Raw(&'a [u8]),
    /// Bytes written JSON-escaped.
    Escaped(&'a [u8]),
    /// A number written in decimal.
    Number(usize),
    /// Bytes written URL-encoded.
    UrlEncoded(&'a [u8]),
    /// JSON string text written with its escapes read and written anew.
    Reescaped(&'a [u8]),
}

/// The bytes a piece stands for.
pub open spec fn piece_bytes(p: Piece) -> Seq<u8> {
    match p {
        Piece::Text(s) => s.spec_bytes(),
        Piece::Raw(b) => b@,
        Piece::Escaped(b) => escaped(b@),
        Piece::Number(n) => decimal(n as nat),
        Piece::UrlEncoded(b) => url_encoded(b@),
        Piece::Reescaped(b) => reescaped(b@),
    }
}

/// The bytes of a run of pieces, one after the other.
pub open spec fn pieces_bytes(ps: Seq<Piece>) -> Seq<u8>
    decreases ps.len(),
{
    if ps.len() == 0 {
        Seq::empty()
    } else {
        pieces_bytes(ps.drop_last()) + piece_bytes(ps.last())
    }
}

/// The units a piece is put down in: a constant, raw bytes or a number
/// as one, escaped or encoded bytes one per byte, re-escaped text one per
/// output escape.
pub open spec fn piece_units(p: Piece) -> Seq<Seq<u8>> {
    match p {
        Piece::Text(s) => seq![s.spec_bytes()],
        Piece::Raw(b) => seq![b@],
        Piece::Escaped(b) => byte_units(b@, escape_fn()),
        Piece::Number(n) => seq![decimal(n as nat)],
        Piece::UrlEncoded(b) => byte_units(b@, url_fn()),
        Piece::Reescaped(b) => reescape_units_from(b@, 0),
    }
}

/// The units of a run of pieces, one after the other.
pub open spec fn pieces_units(ps: Seq<Piece>) -> Seq<Seq<u8>>
    decreases ps.len(),
{
    if ps.len() == 0 {
        Seq::empty()
    } else {
        pieces_units(ps.drop_last()) + piece_units(ps.last())
    }
}

pub proof fn lemma_pieces_units_concat(a: Seq<Piece>, b: Seq<Piece>)
    ensures
        pieces_units(a + b) == pieces_units(a) + pieces_units(b),
    decreases b.len(),
{
    if b.len() == 0 {
        assert(a + b =~= a);
        assert(pieces_units(a) + pieces_units(b) =~= pieces_units(a));
    } else {
        assert((a + b).drop_last() =~= a + b.drop_last());
        lemma_pieces_units_concat(a, b.drop_last());
        assert(pieces_units(a + b) =~= pieces_units(a) + pieces_units(b));
    }
}

/// The text of a shorter run is where the text of a longer one starts.
pub proof fn lemma_pieces_prefix(ps: Seq<Piece>, k: int)
    requires
        0 <= k <= ps.len(),
    ensures
        pieces_bytes(ps.take(k)).len() <= pieces_bytes(ps).len(),
        pieces_bytes(ps) == pieces_bytes(ps.take(k)) + pieces_bytes(ps).skip(
            pieces_bytes(ps.take(k)).len() as int,
        ),
    decreases ps.len() - k,
{
    if k == ps.len() {
        assert(ps.take(k) =~= ps);
        assert(pieces_bytes(ps).skip(pieces_bytes(ps).len() as int) =~= Seq::<u8>::empty());
    } else {
        lemma_pieces_prefix(ps, k + 1);
        assert(ps.take(k + 1).drop_last() =~= ps.take(k));
        let a = pieces_bytes(ps.take(k));
        let b = pieces_bytes(ps.take(k + 1));
        let f = pieces_bytes(ps);
        assert(b == a + piece_bytes(ps[k]));
        assert(f =~= a + f.skip(a.len() as int)) by {
            assert(f == b + f.skip(b.len() as int));
        }
    }
}

/// Writes one piece.
pub fn put_piece(dst: &mut [u8], cursor: &mut usize, p: Piece) -> (ok: bool)
    requires
        *old(cursor) <= old(dst)@.len(),
    ensures
        appended(old(dst)@, *old(cursor) as int, piece_bytes(p), final(dst)@, *final(cursor) as int, ok),
        wrote_units(old(dst)@, *old(cursor) as int, piece_units(p), final(dst)@, *final(cursor) as int, ok),
        final(dst)@.len() == old(dst)@.len(),
        *final(cursor) <= final(dst)@.len(),
{
    match p {
        Piece::Text(s) => put_str(dst, cursor, s),
        Piece::Raw(b) => put_bytes(dst, cursor, b),
        Piece::Escaped(b) => put_escaped(dst, cursor, b),
        Piece::Number(n) => put_usize(dst, cursor, n),
        Piece::UrlEncoded(b) => put_url_encoded(dst, cursor, b),
        Piece::Reescaped(b) => put_reescaped(dst, cursor, b),
    }
}

/// Writes the pieces in order and stops at the first that does not fit:
/// on success the cursor has moved past all of them; otherwise it stands
/// inside their text, with what precedes it written.
pub fn put_pieces(dst: &mut [u8], cursor: &mut usize, ps: &[Piece]) -> (ok: bool)
    requires
        *old(cursor) <= old(dst)@.len(),
    ensures
        appended(
            old(dst)@,
            *old(cursor) as int,
            pieces_bytes(ps@),
            final(dst)@,
            *final(cursor) as int,
            ok,
        ),
        wrote_units(old(dst)@, *old(cursor) as int, pieces_units(ps@), final(dst)@, *final(cursor) as int, ok),
        final(dst)@.len() == old(dst)@.len(),
        *final(cursor) <= final(dst)@.len(),
{
    let ghost d0 = dst@;
    let ghost c0 = *cursor as int;
    let mut k: usize = 0;
    proof {
        assert(pieces_units(ps@.take(0)) =~= Seq::<Seq<u8>>::empty());
        assert(fitting(Seq::<Seq<u8>>::empty(), d0.len() - c0) =~= Seq::<u8>::empty());
        assert(cat(Seq::<Seq<u8>>::empty()) =~= Seq::<u8>::empty());
        assert(crate::json_utils::splice(d0, c0, Seq::<u8>::empty()) == d0);
    }
    assert(ps@.take(0) =~= Seq::<Piece>::empty());
    while k < ps.len()
        invariant
            0 <= k <= ps@.len(),
            d0 == old(dst)@,
            c0 == *old(cursor) as int,
            0 <= c0 <= d0.len(),
            dst@.len() == d0.len(),
            *cursor <= dst@.len(),
            appended(d0, c0, pieces_bytes(ps@.take(k as int)), dst@, *cursor as int, true),
            wrote_units(d0, c0, pieces_units(ps@.take(k as int)), dst@, *cursor as int, true),
        decreases ps@.len() - k,
    {
        let ghost dm = dst@;
        let ghost cm = *cursor as int;
        let ghost done = pieces_bytes(ps@.take(k as int));
        let good = put_piece(dst, cursor, ps[k]);
        proof {
            assert(ps@.take(k + 1).drop_last() =~= ps@.take(k as int));
            let unit = piece_bytes(ps@[k as int]);
            assert(pieces_bytes(ps@.take(k + 1)) == done + unit);
            lemma_appended_then(d0, c0, done, dm, cm, unit, dst@, *cursor as int, good);
            let du = pieces_units(ps@.take(k as int));
            let pu = piece_units(ps@[k as int]);
            assert(pieces_units(ps@.take(k + 1)) == du + pu);
            lemma_wrote_then(d0, c0, du, dm, cm, pu, dst@, *cursor as int, good);
            if !good {
                assert(ps@.take(k + 1) + ps@.skip(k + 1) =~= ps@);
                lemma_pieces_units_concat(ps@.take(k + 1), ps@.skip(k + 1));
                lemma_wrote_fail_extend(d0, c0, du + pu, dst@, *cursor as int, pieces_units(ps@.skip(k + 1)));
            }
            if !good {
                lemma_pieces_prefix(ps@, k + 1);
                let full = pieces_bytes(ps@);
                let rest = full.skip((done + unit).len() as int);
                lemma_appended_fail_extend(d0, c0, done + unit, dst@, *cursor as int, rest);
            }
        }
        if !good {
            return false;
        }
        k = k + 1;
    }
    assert(ps@.take(ps@.len() as int) =~= ps@);
    true
}

/// Writes `a` and then `z`, as one run that stops at the first piece that
/// does not fit.
pub fn put_pieces_then(dst: &mut [u8], cursor: &mut usize, a: &[Piece], z: &[Piece]) -> (ok: bool)
    requires
        *old(cursor) <= old(dst)@.len(),
    ensures
        appended(
            old(dst)@,
            *old(cursor) as int,
            pieces_bytes(a@) + pieces_bytes(z@),
            final(dst)@,
            *final(cursor) as int,
            ok,
        ),
        wrote_units(
            old(dst)@,
            *old(cursor) as int,
            pieces_units(a@) + pieces_units(z@),
            final(dst)@,
            *final(cursor) as int,
            ok,
        ),
        final(dst)@.len() == old(dst)@.len(),
        *final(cursor) <= final(dst)@.len(),
{
    let ghost d0 = dst@;
    let ghost c0 = *cursor as int;
    let ghost ua = pieces_bytes(a@);
    let ghost uz = pieces_bytes(z@);
    if !put_pieces(dst, cursor, a) {
        proof {
            crate::json_utils::lemma_appended_fail_extend(d0, c0, ua, dst@, *cursor as int, uz);
            lemma_wrote_fail_extend(d0, c0, pieces_units(a@), dst@, *cursor as int, pieces_units(z@));
        }
        return false;
    }
    let ghost dm = dst@;
    let ghost cm = *cursor as int;
    let ok = put_pieces(dst, cursor, z);
    proof {
        crate::json_utils::lemma_appended_then(d0, c0, ua, dm, cm, uz, dst@, *cursor as int, ok);
        lemma_wrote_then(d0, c0, pieces_units(a@), dm, cm, pieces_units(z@), dst@, *cursor as int, ok);
    }
    ok
}


/// Item texts written one after the other, comma separated.
#[verifier::opaque]
pub open spec fn joined(ts: Seq<Seq<u8>>) -> Seq<u8>
    decreases ts.len(),
{
    if ts.len() == 0 {
        Seq::empty()
    } else {
        joined(ts.drop_last()) + item_unit(ts.len() > 1, ts.last())
    }
}

/// An item's text, after a comma unless it comes first.
pub open spec fn item_unit(sep: bool, t: Seq<u8>) -> Seq<u8> {
    (if sep {
        ",".spec_bytes()
    } else {
        Seq::empty()
    }) + t
}

pub proof fn lemma_joined_step(ts: Seq<Seq<u8>>, k: int)
    requires
        0 <= k < ts.len(),
    ensures
        joined(ts.take(k + 1)) == joined(ts.take(k)) + item_unit(k > 0, ts[k]),
{
    reveal(joined);
    assert(ts.take(k + 1).drop_last() =~= ts.take(k));
}

pub proof fn lemma_joined_empty(ts: Seq<Seq<u8>>)
    ensures
        joined(ts.take(0)) == Seq::<u8>::empty(),
{
    reveal(joined);
    assert(ts.take(0) =~= Seq::<Seq<u8>>::empty());
}

/// The text of fewer items is where the text of more starts.
pub proof fn lemma_joined_prefix(ts: Seq<Seq<u8>>, k: int)
    requires
        0 <= k <= ts.len(),
    ensures
        joined(ts.take(k)).len() <= joined(ts).len(),
        joined(ts) == joined(ts.take(k)) + joined(ts).skip(joined(ts.take(k)).len() as int),
    decreases ts.len() - k,
{
    if k == ts.len() {
        assert(ts.take(k) =~= ts);
        assert(joined(ts).skip(joined(ts).len() as int) =~= Seq::<u8>::empty());
    } else {
        lemma_joined_prefix(ts, k + 1);
        lemma_joined_step(ts, k);
        let a = joined(ts.take(k));
        let b = joined(ts.take(k + 1));
        let f = joined(ts);
        assert(f =~= a + f.skip(a.len() as int)) by {
            assert(f == b + f.skip(b.len() as int));
        }
    }
}

/// Whether `written` items of `ts` went out whole and the cursor stands
/// where the text written from `c0` says: all of them, or the first
/// `written` and part of the next.
pub open spec fn joined_written(ts: Seq<Seq<u8>>, written: int, c0: int, c1: int) -> bool {
    &&& 0 <= written <= ts.len()
    &&& written < ts.len() ==> joined(ts.take(written)).len() <= c1 - c0 < joined(
        ts.take(written + 1),
    ).len()
}

/// The `k`-th item written whole after the first `k`.
pub proof fn lemma_item_ok(
    ts: Seq<Seq<u8>>,
    k: int,
    d0: Seq<u8>,
    c0: int,
    dm: Seq<u8>,
    cm: int,
    d1: Seq<u8>,
    c1: int,
)
    requires
        0 <= k < ts.len(),
        0 <= c0 <= d0.len(),
        appended(d0, c0, joined(ts.take(k)), dm, cm, true),
        appended(dm, cm, item_unit(k > 0, ts[k]), d1, c1, true),
    ensures
        appended(d0, c0, joined(ts.take(k + 1)), d1, c1, true),
{
    lemma_joined_step(ts, k);
    lemma_appended_then(d0, c0, joined(ts.take(k)), dm, cm, item_unit(k > 0, ts[k]), d1, c1, true);
}

/// The `k`-th item did not fit after the first `k`.
pub proof fn lemma_item_fail(
    ts: Seq<Seq<u8>>,
    k: int,
    d0: Seq<u8>,
    c0: int,
    dm: Seq<u8>,
    cm: int,
    d1: Seq<u8>,
    c1: int,
)
    requires
        0 <= k < ts.len(),
        0 <= c0 <= d0.len(),
        appended(d0, c0, joined(ts.take(k)), dm, cm, true),
        appended(dm, cm, item_unit(k > 0, ts[k]), d1, c1, false),
    ensures
        appended(d0, c0, joined(ts), d1, c1, false),
        joined_written(ts, k, c0, c1),
{
    let a = joined(ts.take(k));
    let u = item_unit(k > 0, ts[k]);
    lemma_joined_step(ts, k);
    lemma_appended_then(d0, c0, a, dm, cm, u, d1, c1, false);
    lemma_joined_prefix(ts, k + 1);
    let full = joined(ts);
    lemma_appended_fail_extend(d0, c0, a + u, d1, c1, full.skip((a + u).len() as int));
}

/// Writes an item after a comma, or as it is when it comes first; the
/// item is a run of pieces.
pub fn put_item(dst: &mut [u8], cursor: &mut usize, first: bool, ps: &[Piece]) -> (ok: bool)
    requires
        *old(cursor) <= old(dst)@.len(),
    ensures
        appended(
            old(dst)@,
            *old(cursor) as int,
            item_unit(!first, pieces_bytes(ps@)),
            final(dst)@,
            *final(cursor) as int,
            ok,
        ),
        wrote_units(
            old(dst)@,
            *old(cursor) as int,
            item_units(!first, pieces_units(ps@)),
            final(dst)@,
            *final(cursor) as int,
            ok,
        ),
        final(dst)@.len() == old(dst)@.len(),
        *final(cursor) <= final(dst)@.len(),
{
    let ghost d0 = dst@;
    let ghost c0 = *cursor as int;
    let ghost u = pieces_bytes(ps@);
    if first {
        let ok = put_pieces(dst, cursor, ps);
        assert(Seq::<u8>::empty() + u =~= u);
        assert(item_units(false, pieces_units(ps@)) =~= pieces_units(ps@));
        return ok;
    }
    let good = put_str(dst, cursor, ",");
    if !good {
        proof {
            lemma_appended_fail_extend(d0, c0, ",".spec_bytes(), dst@, *cursor as int, u);
            lemma_wrote_fail_extend(d0, c0, seq![",".spec_bytes()], dst@, *cursor as int, pieces_units(ps@));
        }
        return false;
    }
    let ghost dm = dst@;
    let ghost cm = *cursor as int;
    let ok = put_pieces(dst, cursor, ps);
    proof {
        lemma_appended_then(d0, c0, ",".spec_bytes(), dm, cm, u, dst@, *cursor as int, ok);
        lemma_wrote_then(d0, c0, seq![",".spec_bytes()], dm, cm, pieces_units(ps@), dst@, *cursor as int, ok);
    }
    ok
}

/// The units of an item, after a comma unless it comes first.
pub open spec fn item_units(sep: bool, us: Seq<Seq<u8>>) -> Seq<Seq<u8>> {
    (if sep {
        seq![",".spec_bytes()]
    } else {
        Seq::empty()
    }) + us
}

/// The units of items, one item after the other.
pub open spec fn concat_units(xs: Seq<Seq<Seq<u8>>>) -> Seq<Seq<u8>>
    decreases xs.len(),
{
    if xs.len() == 0 {
        Seq::empty()
    } else {
        concat_units(xs.drop_last()) + xs.last()
    }
}

/// Items as a list: each item's units after a comma unless it is first.
pub open spec fn listed(xs: Seq<Seq<Seq<u8>>>) -> Seq<Seq<Seq<u8>>> {
    Seq::new(xs.len(), |k: int| item_units(k > 0, xs[k]))
}

pub proof fn lemma_concat_units_split(xs: Seq<Seq<Seq<u8>>>, k: int)
    requires
        0 <= k <= xs.len(),
    ensures
        concat_units(xs) == concat_units(xs.take(k)) + concat_units(xs.skip(k)),
    decreases xs.len() - k,
{
    if k == xs.len() {
        assert(xs.take(k) =~= xs);
        assert(xs.skip(k) =~= Seq::<Seq<Seq<u8>>>::empty());
        assert(concat_units(xs) + Seq::<Seq<u8>>::empty() =~= concat_units(xs));
    } else {
        lemma_concat_units_split(xs, k + 1);
        assert(xs.take(k + 1).drop_last() =~= xs.take(k));
        assert(xs.skip(k).skip(1) =~= xs.skip(k + 1));
        lemma_concat_units_front(xs.skip(k));
        assert(concat_units(xs) =~= concat_units(xs.take(k)) + concat_units(xs.skip(k)));
    }
}

pub proof fn lemma_concat_units_front(xs: Seq<Seq<Seq<u8>>>)
    requires
        xs.len() > 0,
    ensures
        concat_units(xs) == xs[0] + concat_units(xs.skip(1)),
    decreases xs.len(),
{
    if xs.len() == 1 {
        assert(xs.drop_last() =~= Seq::<Seq<Seq<u8>>>::empty());
        assert(xs.skip(1) =~= Seq::<Seq<Seq<u8>>>::empty());
        assert(concat_units(xs) =~= xs[0] + concat_units(xs.skip(1)));
    } else {
        lemma_concat_units_front(xs.drop_last());
        assert(xs.drop_last().skip(1) =~= xs.skip(1).drop_last());
        assert(xs.skip(1).last() == xs.last());
        assert(concat_units(xs) =~= xs[0] + concat_units(xs.skip(1)));
    }
}

/// The `k`-th item written whole after the first `k`.
pub proof fn lemma_units_item_ok(
    xs: Seq<Seq<Seq<u8>>>,
    k: int,
    d0: Seq<u8>,
    c0: int,
    dm: Seq<u8>,
    cm: int,
    d1: Seq<u8>,
    c1: int,
)
    requires
        0 <= k < xs.len(),
        0 <= c0 <= d0.len(),
        wrote_units(d0, c0, concat_units(xs.take(k)), dm, cm, true),
        wrote_units(dm, cm, xs[k], d1, c1, true),
    ensures
        wrote_units(d0, c0, concat_units(xs.take(k + 1)), d1, c1, true),
{
    assert(xs.take(k + 1).drop_last() =~= xs.take(k));
    lemma_wrote_then(d0, c0, concat_units(xs.take(k)), dm, cm, xs[k], d1, c1, true);
}

/// The `k`-th item not fitting after the first `k`: the whole list stops
/// there.
pub proof fn lemma_units_item_fail(
    xs: Seq<Seq<Seq<u8>>>,
    k: int,
    d0: Seq<u8>,
    c0: int,
    dm: Seq<u8>,
    cm: int,
    d1: Seq<u8>,
    c1: int,
)
    requires
        0 <= k < xs.len(),
        0 <= c0 <= d0.len(),
        wrote_units(d0, c0, concat_units(xs.take(k)), dm, cm, true),
        wrote_units(dm, cm, xs[k], d1, c1, false),
    ensures
        wrote_units(d0, c0, concat_units(xs), d1, c1, false),
{
    assert(xs.take(k + 1).drop_last() =~= xs.take(k));
    lemma_wrote_then(d0, c0, concat_units(xs.take(k)), dm, cm, xs[k], d1, c1, false);
    lemma_concat_units_split(xs, k + 1);
    lemma_wrote_fail_extend(d0, c0, concat_units(xs.take(k + 1)), d1, c1, concat_units(xs.skip(k + 1)));
}

pub proof fn lemma_units_empty(xs: Seq<Seq<Seq<u8>>>, d0: Seq<u8>, c0: int)
    requires
        0 <= c0 <= d0.len(),
    ensures
        wrote_units(d0, c0, concat_units(xs.take(0)), d0, c0, true),
{
    assert(xs.take(0) =~= Seq::<Seq<Seq<u8>>>::empty());
    assert(concat_units(xs.take(0)) =~= Seq::<Seq<u8>>::empty());
    assert(fitting(Seq::<Seq<u8>>::empty(), d0.len() - c0) =~= Seq::<u8>::empty());
    assert(cat(Seq::<Seq<u8>>::empty()) =~= Seq::<u8>::empty());
}

/// How many leading items of `xs` fit whole in `room` bytes.
pub open spec fn whole_items(xs: Seq<Seq<Seq<u8>>>, room: int) -> nat
    decreases xs.len(),
{
    if xs.len() == 0 || cat(xs[0]).len() > room {
        0
    } else {
        1 + whole_items(xs.skip(1), room - cat(xs[0]).len())
    }
}

/// Where a list writer stops: the first `k` items fit and the next does
/// not (or there is none).
pub proof fn lemma_whole_items_at(xs: Seq<Seq<Seq<u8>>>, room: int, k: int)
    requires
        0 <= k <= xs.len(),
        cat(concat_units(xs.take(k))).len() <= room,
        k < xs.len() ==> room < cat(concat_units(xs.take(k + 1))).len(),
    ensures
        whole_items(xs, room) == k,
    decreases k,
{
    if k == 0 {
        if xs.len() > 0 {
            assert(xs.take(1).drop_last() =~= xs.take(0));
            assert(xs.take(0) =~= Seq::<Seq<Seq<u8>>>::empty());
            assert(concat_units(xs.take(1)) =~= xs[0]);
        }
    } else {
        let t = xs.skip(1);
        let a = cat(xs[0]);
        lemma_concat_units_front(xs.take(k));
        assert(xs.take(k).skip(1) =~= t.take(k - 1));
        crate::units::lemma_cat_concat(xs[0], concat_units(t.take(k - 1)));
        if k < xs.len() {
            lemma_concat_units_front(xs.take(k + 1));
            assert(xs.take(k + 1).skip(1) =~= t.take(k));
            crate::units::lemma_cat_concat(xs[0], concat_units(t.take(k)));
        }
        lemma_whole_items_at(t, room - a.len(), k - 1);
    }
}

/// A list answer written into `cap` bytes: its opening `h`, then its
/// items' units `us` up to the first that does not fit, then its closing
/// `f`; none where the opening or the closing does not fit.
pub open spec fn list_written(h: Seq<u8>, us: Seq<Seq<u8>>, f: Seq<u8>, cap: int) -> Option<Seq<u8>> {
    if h.len() > cap {
        None
    } else {
        let p = fitting(us, cap - h.len());
        if h.len() + p.len() + f.len() > cap {
            None
        } else {
            Some(h + p + f)
        }
    }
}

/// An opening, items and closing written one after the other give the
/// list answer, or none when the closing did not fit.
pub proof fn lemma_list_written(
    d0: Seq<u8>,
    h: Seq<u8>,
    dh: Seq<u8>,
    ch: int,
    us: Seq<Seq<u8>>,
    dc: Seq<u8>,
    cc: int,
    oku: bool,
    f: Seq<u8>,
    dp: Seq<u8>,
    cp: int,
    okf: bool,
)
    requires
        appended(d0, 0, h, dh, ch, true),
        wrote_units(dh, ch, us, dc, cc, oku),
        appended(dc, cc, f, dp, cp, okf),
    ensures
        okf ==> list_written(h, us, f, d0.len() as int) == Some(dp.take(cp)),
        !okf ==> list_written(h, us, f, d0.len() as int) is None,
{
    let p = fitting(us, dh.len() - ch);
    crate::units::lemma_fitting_len(us, dh.len() - ch);
    assert(dh.len() == d0.len()) by {
        if h.len() > 0 {
        }
    }
    assert(dh.take(ch) =~= h);
    assert(dc.len() == dh.len()) by {
        if p.len() > 0 {
        }
    }
    assert(dc.take(cc) =~= h + p);
    if okf {
        assert(dp.take(cp) =~= h + p + f);
    }
}

pub proof fn lemma_list_head_fail(d0: Seq<u8>, h: Seq<u8>, d1: Seq<u8>, c1: int, us: Seq<Seq<u8>>, f: Seq<u8>)
    requires
        appended(d0, 0, h, d1, c1, false),
    ensures
        list_written(h, us, f, d0.len() as int) is None,
{
}

/// How building a payload from a fetched page ended.
#[derive(Clone, Copy, PartialEq, Eq, Structural)]
pub enum Outcome {
    /// The payload is written; its length.
    Done(usize),
    /// The page lacks what the payload is built from.
    Missing,
    /// The payload does not fit.
    Overflow,
    /// The page is malformed in a way the scan cannot step over.
    Broken,
}

/// Texts written one after the other.
#[verifier::opaque]
pub open spec fn flat(us: Seq<Seq<u8>>) -> Seq<u8>
    decreases us.len(),
{
    if us.len() == 0 {
        Seq::empty()
    } else {
        flat(us.drop_last()) + us.last()
    }
}

pub proof fn lemma_flat_step(us: Seq<Seq<u8>>, k: int)
    requires
        0 <= k < us.len(),
    ensures
        flat(us.take(k + 1)) == flat(us.take(k)) + us[k],
{
    reveal(flat);
    assert(us.take(k + 1).drop_last() =~= us.take(k));
}

pub proof fn lemma_flat_empty(us: Seq<Seq<u8>>)
    ensures
        flat(us.take(0)) == Seq::<u8>::empty(),
{
    reveal(flat);
    assert(us.take(0) =~= Seq::<Seq<u8>>::empty());
}

pub proof fn lemma_flat_prefix(us: Seq<Seq<u8>>, k: int)
    requires
        0 <= k <= us.len(),
    ensures
        flat(us.take(k)).len() <= flat(us).len(),
        flat(us) == flat(us.take(k)) + flat(us).skip(flat(us.take(k)).len() as int),
    decreases us.len() - k,
{
    if k == us.len() {
        assert(us.take(k) =~= us);
        assert(flat(us).skip(flat(us).len() as int) =~= Seq::<u8>::empty());
    } else {
        lemma_flat_prefix(us, k + 1);
        lemma_flat_step(us, k);
        let a = flat(us.take(k));
        let b = flat(us.take(k + 1));
        let f = flat(us);
        assert(f =~= a + f.skip(a.len() as int)) by {
            assert(f == b + f.skip(b.len() as int));
        }
    }
}

/// Whether `written` texts of `us` went out whole and the cursor stands
/// inside the next one.
pub open spec fn flat_written(us: Seq<Seq<u8>>, written: int, c0: int, c1: int) -> bool {
    &&& 0 <= written <= us.len()
    &&& written < us.len() ==> flat(us.take(written)).len() <= c1 - c0 < flat(us.take(written + 1)).len()
}

pub proof fn lemma_unit_ok(us: Seq<Seq<u8>>, k: int, d0: Seq<u8>, c0: int, dm: Seq<u8>, cm: int, d1: Seq<u8>, c1: int)
    requires
        0 <= k < us.len(),
        0 <= c0 <= d0.len(),
        appended(d0, c0, flat(us.take(k)), dm, cm, true),
        appended(dm, cm, us[k], d1, c1, true),
    ensures
        appended(d0, c0, flat(us.take(k + 1)), d1, c1, true),
{
    lemma_flat_step(us, k);
    lemma_appended_then(d0, c0, flat(us.take(k)), dm, cm, us[k], d1, c1, true);
}

pub proof fn lemma_unit_fail(us: Seq<Seq<u8>>, k: int, d0: Seq<u8>, c0: int, dm: Seq<u8>, cm: int, d1: Seq<u8>, c1: int)
    requires
        0 <= k < us.len(),
        0 <= c0 <= d0.len(),
        appended(d0, c0, flat(us.take(k)), dm, cm, true),
        appended(dm, cm, us[k], d1, c1, false),
    ensures
        appended(d0, c0, flat(us), d1, c1, false),
        flat_written(us, k, c0, c1),
{
    let a = flat(us.take(k));
    lemma_flat_step(us, k);
    lemma_appended_then(d0, c0, a, dm, cm, us[k], d1, c1, false);
    lemma_flat_prefix(us, k + 1);
    let full = flat(us);
    lemma_appended_fail_extend(d0, c0, a + us[k], d1, c1, full.skip((a + us[k]).len() as int));
}

/// A payload built from an opening, the items as far as they went, and a
/// closing written after them.
pub proof fn lemma_list_text(
    items: Seq<Seq<u8>>,
    w: int,
    head: Seq<u8>,
    foot: Seq<u8>,
    d0: Seq<u8>,
    dh: Seq<u8>,
    ch: int,
    dc: Seq<u8>,
    cc: int,
    dp: Seq<u8>,
    cp: int,
)
    requires
        appended(d0, 0, head, dh, ch, true),
        appended(dh, ch, joined(items), dc, cc, w == items.len()),
        joined_written(items, w, ch, cc),
        appended(dc, cc, foot, dp, cp, true),
    ensures
        exists|k: int|
            joined_written(items, w, 0, k) && dp.take(cp) == head + joined(items).take(k) + foot,
        w == items.len() ==> dp.take(cp) == head + joined(items) + foot,
{
    let jt = joined(items);
    let k = cc - ch;
    assert(ch == head.len());
    if w == items.len() {
        assert(jt.take(k) =~= jt);
    }
    assert(dc.take(cc) =~= head + jt.take(k)) by {
        assert(dh.take(ch) =~= head);
    }
    assert(dp.take(cp) =~= head + jt.take(k) + foot);
    assert(joined_written(items, w, 0, k));
}

} // verus!
