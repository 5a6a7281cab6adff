//! Writing text unit by unit: every writer puts its output down in units
//! (a constant, one escaped byte, a number) and stops at the first unit
//! that does not fit, leaving the units before it written.
use vstd::prelude::*;
use crate::json_utils::{lemma_splice_concat, per_byte, splice};

verus! {

/// Units written one after the other.
pub open spec fn cat(us: Seq<Seq<u8>>) -> Seq<u8>
    decreases us.len(),
{
    if us.len() == 0 {
        Seq::empty()
    } else {
        us[0] + cat(us.skip(1))
    }
}

/// What of `us` a writer with `room` free bytes puts down: the units up to
/// the first that does not fit.
pub open spec fn fitting(us: Seq<Seq<u8>>, room: int) -> Seq<u8>
    decreases us.len(),
{
    if us.len() == 0 || us[0].len() > room {
        Seq::empty()
    } else {
        us[0] + fitting(us.skip(1), room - us[0].len())
    }
}

/// A write of the units `us` at `c0` into `d0`: whether they all fit, and
/// the buffer and cursor after the units that fit are written.
pub open spec fn wrote_units(d0: Seq<u8>, c0: int, us: Seq<Seq<u8>>, d1: Seq<u8>, c1: int, ok: bool) -> bool {
    &&& ok == (c0 + cat(us).len() <= d0.len())
    &&& d1 == splice(d0, c0, fitting(us, d0.len() - c0))
    &&& c1 == c0 + fitting(us, d0.len() - c0).len()
}

/// One unit per byte of `s`: `f` of it.
pub open spec fn byte_units(s: Seq<u8>, f: spec_fn(u8) -> Seq<u8>) -> Seq<Seq<u8>> {
    Seq::new(s.len(), |i: int| f(s[i]))
}

pub proof fn lemma_cat_concat(a: Seq<Seq<u8>>, b: Seq<Seq<u8>>)
    ensures
        cat(a + b) == cat(a) + cat(b),
    decreases a.len(),
{
    if a.len() == 0 {
        assert(a + b =~= b);
        assert(cat(a) + cat(b) =~= cat(b));
    } else {
        assert((a + b).skip(1) =~= a.skip(1) + b);
        assert((a + b)[0] == a[0]);
        lemma_cat_concat(a.skip(1), b);
        assert(cat(a + b) =~= cat(a) + cat(b));
    }
}

pub proof fn lemma_cat_one(u: Seq<u8>)
    ensures
        cat(seq![u]) == u,
{
    reveal_with_fuel(cat, 2);
    assert(seq![u].skip(1) =~= Seq::<Seq<u8>>::empty());
    assert(u + Seq::<u8>::empty() =~= u);
}

pub proof fn lemma_fitting_full(us: Seq<Seq<u8>>, room: int)
    requires
        cat(us).len() <= room,
    ensures
        fitting(us, room) == cat(us),
    decreases us.len(),
{
    if us.len() > 0 {
        lemma_fitting_full(us.skip(1), room - us[0].len());
    }
}

pub proof fn lemma_fitting_len(us: Seq<Seq<u8>>, room: int)
    ensures
        fitting(us, room).len() <= cat(us).len(),
        room >= 0 ==> fitting(us, room).len() <= room,
        room >= 0 && cat(us).len() > room ==> fitting(us, room).len() < cat(us).len(),
        cat(us).take(fitting(us, room).len() as int) == fitting(us, room),
    decreases us.len(),
{
    if us.len() > 0 {
        lemma_fitting_len(us.skip(1), room - us[0].len());
        if us[0].len() <= room {
            let r = fitting(us.skip(1), room - us[0].len());
            assert(cat(us).take(fitting(us, room).len() as int) =~= us[0] + cat(us.skip(1)).take(r.len() as int));
        } else {
            assert(cat(us).take(0) =~= Seq::<u8>::empty());
        }
    }
}

pub proof fn lemma_fitting_concat(a: Seq<Seq<u8>>, b: Seq<Seq<u8>>, room: int)
    ensures
        cat(a).len() <= room ==> fitting(a + b, room) == cat(a) + fitting(b, room - cat(a).len()),
        cat(a).len() > room ==> fitting(a + b, room) == fitting(a, room),
    decreases a.len(),
{
    if a.len() == 0 {
        assert(a + b =~= b);
        assert(cat(a) + fitting(b, room) =~= fitting(b, room));
    } else {
        assert((a + b).skip(1) =~= a.skip(1) + b);
        assert((a + b)[0] == a[0]);
        lemma_fitting_concat(a.skip(1), b, room - a[0].len());
        if a[0].len() <= room {
            assert(cat(a).len() == a[0].len() + cat(a.skip(1)).len());
            if cat(a).len() <= room {
                assert(fitting(a + b, room) =~= cat(a) + fitting(b, room - cat(a).len()));
            }
        }
    }
}

/// The units that fit are those before the first that does not.
pub proof fn lemma_fitting_at(us: Seq<Seq<u8>>, room: int, k: int)
    requires
        0 <= k < us.len(),
        cat(us.take(k)).len() <= room,
        room < cat(us.take(k + 1)).len(),
    ensures
        fitting(us, room) == cat(us.take(k)),
{
    let a = us.take(k);
    let b = us.skip(k);
    assert(a + b =~= us);
    lemma_fitting_concat(a, b, room);
    assert(us.take(k + 1) =~= a + seq![us[k]]);
    lemma_cat_concat(a, seq![us[k]]);
    lemma_cat_one(us[k]);
    assert(b[0] == us[k]);
    assert(fitting(b, room - cat(a).len()) =~= Seq::<u8>::empty());
    assert(cat(a) + Seq::<u8>::empty() =~= cat(a));
}

pub proof fn lemma_wrote_then(
    d0: Seq<u8>,
    c0: int,
    a: Seq<Seq<u8>>,
    dm: Seq<u8>,
    cm: int,
    b: Seq<Seq<u8>>,
    d1: Seq<u8>,
    c1: int,
    ok: bool,
)
    requires
        0 <= c0 <= d0.len(),
        wrote_units(d0, c0, a, dm, cm, true),
        wrote_units(dm, cm, b, d1, c1, ok),
    ensures
        wrote_units(d0, c0, a + b, d1, c1, ok),
{
    let room = d0.len() - c0;
    lemma_fitting_full(a, room);
    lemma_fitting_concat(a, b, room);
    lemma_cat_concat(a, b);
    let x = cat(a);
    let y = fitting(b, dm.len() - cm);
    assert(dm.len() == d0.len()) by {
        if x.len() > 0 {
        }
    }
    lemma_fitting_len(b, dm.len() - cm);
    lemma_splice_concat(d0, c0, x, y);
}

pub proof fn lemma_wrote_fail_extend(d0: Seq<u8>, c0: int, a: Seq<Seq<u8>>, d1: Seq<u8>, c1: int, b: Seq<Seq<u8>>)
    requires
        wrote_units(d0, c0, a, d1, c1, false),
    ensures
        wrote_units(d0, c0, a + b, d1, c1, false),
{
    lemma_fitting_concat(a, b, d0.len() - c0);
    lemma_cat_concat(a, b);
}

/// A write of one unit that puts it down whole or not at all.
pub proof fn lemma_wrote_one(d0: Seq<u8>, c0: int, u: Seq<u8>, d1: Seq<u8>, c1: int, ok: bool)
    requires
        ok == (c0 + u.len() <= d0.len()),
        ok ==> d1 == splice(d0, c0, u) && c1 == c0 + u.len(),
        !ok ==> d1 == d0 && c1 == c0,
    ensures
        wrote_units(d0, c0, seq![u], d1, c1, ok),
{
    lemma_cat_one(u);
    reveal_with_fuel(fitting, 2);
    assert(seq![u].skip(1) =~= Seq::<Seq<u8>>::empty());
    if ok {
        assert(u + Seq::<u8>::empty() =~= u);
    }
}

pub proof fn lemma_byte_units_cat(s: Seq<u8>, f: spec_fn(u8) -> Seq<u8>)
    ensures
        cat(byte_units(s, f)) == per_byte(s, f),
    decreases s.len(),
{
    if s.len() > 0 {
        lemma_byte_units_cat(s.drop_last(), f);
        assert(byte_units(s, f) =~= byte_units(s.drop_last(), f) + seq![f(s.last())]);
        lemma_cat_concat(byte_units(s.drop_last(), f), seq![f(s.last())]);
        lemma_cat_one(f(s.last()));
    } else {
        assert(byte_units(s, f) =~= Seq::<Seq<u8>>::empty());
    }
}

/// A per-byte writer that stops at the first unit that does not fit, or
/// writes all of them, has written its units as far as they fit.
pub proof fn lemma_per_byte_wrote(
    d0: Seq<u8>,
    c0: int,
    f: spec_fn(u8) -> Seq<u8>,
    src: Seq<u8>,
    d1: Seq<u8>,
    c1: int,
    ok: bool,
)
    requires
        0 <= c0 <= d0.len(),
        ok == (src.len() == 0 || c0 + per_byte(src, f).len() <= d0.len()),
        ok ==> d1 == splice(d0, c0, per_byte(src, f)) && c1 == c0 + per_byte(src, f).len(),
        !ok ==> crate::json_utils::stopped_at_unit(d0, c0, f, src, d1, c1),
    ensures
        wrote_units(d0, c0, byte_units(src, f), d1, c1, ok),
{
    let us = byte_units(src, f);
    lemma_byte_units_cat(src, f);
    if ok {
        lemma_fitting_full(us, d0.len() - c0);
    } else {
        let k = choose|k: int|
            0 <= k < src.len() && (k > 0 ==> c0 + per_byte(src.take(k), f).len() <= d0.len()) && d0.len() < c0
                + per_byte(src.take(k + 1), f).len() && d1 == splice(d0, c0, per_byte(src.take(k), f)) && c1 == c0
                + per_byte(src.take(k), f).len();
        assert(us.take(k) =~= byte_units(src.take(k), f));
        assert(us.take(k + 1) =~= byte_units(src.take(k + 1), f));
        lemma_byte_units_cat(src.take(k), f);
        lemma_byte_units_cat(src.take(k + 1), f);
        if k == 0 {
            assert(src.take(0) =~= Seq::<u8>::empty());
            assert(per_byte(src.take(0), f) =~= Seq::<u8>::empty());
        }
        lemma_fitting_at(us, d0.len() - c0, k);
    }
}

} // verus!
