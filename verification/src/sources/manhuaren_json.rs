//! Reading the Manhuaren API's JSON replies: values found by key with
//! whitespace around the colon, arrays of objects and of strings, and the
//! manga items written from them.
use vstd::prelude::*;
use vstd::slice::slice_subrange;
use vstd::string::StringSliceAdditionalSpecFns;
use crate::json_utils::{
    same_bytes, appended, decimal, digit_fn, escaped, lemma_appended_fail_extend, lemma_appended_then, put_str, key_pattern, key_pattern_vec, lemma_appended_start, matches_at,
    matches_at_exec, object_at, object_at_spec, reescaped, skip_while, string_close,
    string_close_exec, ws_fn, escape_fn, reescape_units_from,
};
use crate::units::{byte_units, lemma_wrote_fail_extend, lemma_wrote_then, wrote_units};
use crate::pieces::{lemma_whole_items_at, whole_items, concat_units, item_units, listed, lemma_units_empty, lemma_units_item_fail, lemma_units_item_ok, list_written, lemma_list_written, lemma_list_head_fail, pieces_units, Outcome, joined_written, lemma_list_text, flat, item_unit, lemma_flat_empty, lemma_unit_fail, lemma_unit_ok, piece_bytes, put_pieces, joined, lemma_item_fail, lemma_item_ok, lemma_joined_empty, pieces_bytes, put_item, Piece};

verus! {

/// `"key"`.
pub open spec fn quoted_key(key: Seq<u8>) -> Seq<u8> {
    key_pattern(key, Seq::empty())
}

/// Scanning from `from`: the first occurrence of `pat` that is followed,
/// past whitespace, by a colon gives the position after the colon and the
/// whitespace after it; occurrences without a colon are passed over.
pub open spec fn value_start_from(data: Seq<u8>, pat: Seq<u8>, from: int) -> Option<int>
    decreases data.len() - from,
{
    if from < 0 || from >= data.len() {
        None
    } else if matches_at(data, pat, from) {
        let i = skip_while(data, from + pat.len(), ws_fn());
        if i < data.len() && data[i] == 58 {
            Some(skip_while(data, i + 1, ws_fn()))
        } else {
            value_start_from(data, pat, from + 1)
        }
    } else {
        value_start_from(data, pat, from + 1)
    }
}

/// Where the value stored under `key` starts. Keys longer than 62 bytes
/// are never matched.
pub open spec fn value_start_of(data: Seq<u8>, key: Seq<u8>) -> Option<int> {
    if key.len() + 2 > 64 {
        None
    } else {
        value_start_from(data, quoted_key(key), 0)
    }
}

/// Skips whitespace from `i`.
fn skip_ws(data: &[u8], i: usize) -> (r: usize)
    requires
        i <= data@.len(),
    ensures
        r == skip_while(data@, i as int, ws_fn()),
        i <= r <= data@.len(),
{
    let ghost ws = ws_fn();
    let mut p = i;
    while p < data.len() && (data[p] == 32 || data[p] == 9 || data[p] == 10 || data[p] == 13)
        invariant
            i <= p <= data@.len(),
            ws == ws_fn(),
            skip_while(data@, i as int, ws) == skip_while(data@, p as int, ws),
        decreases data@.len() - p,
    {
        p = p + 1;
    }
    p
}

/// Where the value stored under `key` starts: after the first `"key"`
/// that a colon follows, whitespace allowed on both sides of the colon.
pub fn json_value_start(data: &[u8], key: &[u8]) -> (r: Option<usize>)
    ensures
        match r {
            Some(i) => value_start_of(data@, key@) == Some(i as int) && i <= data@.len(),
            None => value_start_of(data@, key@) is None,
        },
{
    if key.len() > 62 {
        return None;
    }
    let tail: [u8; 0] = [];
    let pat = key_pattern_vec(key, &tail);
    assert(tail@ =~= Seq::<u8>::empty());
    let ghost p = pat@;
    let mut from: usize = 0;
    while from < data.len()
        invariant
            p == quoted_key(key@),
            p == pat@,
            from <= data@.len(),
            key@.len() + 2 <= 64,
            value_start_from(data@, p, 0) == value_start_from(data@, p, from as int),
        decreases data@.len() - from,
    {
        if data.len() - from >= pat.len() && matches_at_exec(data, pat.as_slice(), from) {
            let i = skip_ws(data, from + pat.len());
            if i < data.len() && data[i] == 58 {
                let v = skip_ws(data, i + 1);
                return Some(v);
            }
        }
        from = from + 1;
    }
    None
}

/// The raw (still escaped) string stored under `key`.
pub open spec fn string_value_of(data: Seq<u8>, key: Seq<u8>) -> Option<Seq<u8>> {
    match value_start_of(data, key) {
        None => None,
        Some(i) => if i >= data.len() || data[i] != 34 {
            None
        } else {
            match string_close(data, i + 1) {
                None => None,
                Some(e) => Some(data.subrange(i + 1, e)),
            }
        },
    }
}

/// The raw string stored under `key`; `None` when the value is not a
/// string or the string does not close.
pub fn extract_json_string<'a>(data: &'a [u8], key: &[u8]) -> (r: Option<&'a [u8]>)
    ensures
        match r {
            Some(v) => string_value_of(data@, key@) == Some(v@),
            None => string_value_of(data@, key@) is None,
        },
{
    let i = match json_value_start(data, key) {
        Some(v) => v,
        None => return None,
    };
    if i >= data.len() || data[i] != 34 {
        return None;
    }
    match string_close_exec(data, i + 1) {
        Some(e) => Some(slice_subrange(data, i + 1, e)),
        None => None,
    }
}

/// The run of digits stored under `key`.
pub open spec fn number_value_of(data: Seq<u8>, key: Seq<u8>) -> Option<Seq<u8>> {
    match value_start_of(data, key) {
        None => None,
        Some(i) => {
            let e = skip_while(data, i, digit_fn());
            if e == i {
                None
            } else {
                Some(data.subrange(i, e))
            }
        },
    }
}

/// The run of digits stored under `key`; `None` when the value does not
/// start with a digit.
pub fn extract_json_number<'a>(data: &'a [u8], key: &[u8]) -> (r: Option<&'a [u8]>)
    ensures
        match r {
            Some(v) => number_value_of(data@, key@) == Some(v@),
            None => number_value_of(data@, key@) is None,
        },
{
    let start = match json_value_start(data, key) {
        Some(v) => v,
        None => return None,
    };
    let ghost dg = digit_fn();
    let mut e = start;
    while e < data.len() && data[e] >= 48 && data[e] <= 57
        invariant
            start <= e <= data@.len(),
            dg == digit_fn(),
            skip_while(data@, start as int, dg) == skip_while(data@, e as int, dg),
        decreases data@.len() - e,
    {
        e = e + 1;
    }
    if e == start {
        return None;
    }
    Some(slice_subrange(data, start, e))
}

/// The status word of the API's `mangaIsOver` number.
pub open spec fn status_name(v: usize) -> Seq<u8> {
    if v == 1 {
        "completed".spec_bytes()
    } else if v == 0 {
        "ongoing".spec_bytes()
    } else {
        "unknown".spec_bytes()
    }
}

/// `completed` for 1, `ongoing` for 0, `unknown` otherwise.
pub fn status_from_i32(v: usize) -> (r: &'static [u8])
    ensures
        r@ == status_name(v),
{
    if v == 1 {
        "completed".as_bytes()
    } else if v == 0 {
        "ongoing".as_bytes()
    } else {
        "unknown".as_bytes()
    }
}

/// The number the digits of `s` spell, other bytes passed over; the
/// arithmetic wraps as machine words do.
pub open spec fn digits_wrapping(s: Seq<u8>) -> usize
    decreases s.len(),
{
    if s.len() == 0 {
        0
    } else {
        let n = digits_wrapping(s.drop_last());
        let b = s.last();
        if 48 <= b <= 57 {
            n.wrapping_mul(10).wrapping_add((b - 48) as usize)
        } else {
            n
        }
    }
}

/// Reads the digits of `bytes` as a number, passing over other bytes.
pub fn parse_usize(bytes: &[u8]) -> (r: usize)
    ensures
        r == digits_wrapping(bytes@),
{
    let mut n: usize = 0;
    let mut i: usize = 0;
    while i < bytes.len()
        invariant
            0 <= i <= bytes@.len(),
            n == digits_wrapping(bytes@.take(i as int)),
        decreases bytes@.len() - i,
    {
        let b = bytes[i];
        assert(bytes@.take(i + 1).drop_last() =~= bytes@.take(i as int));
        if b >= 48 && b <= 57 {
            n = n.wrapping_mul(10).wrapping_add((b - 48) as usize);
        }
        i = i + 1;
    }
    assert(bytes@.take(bytes@.len() as int) =~= bytes@);
    n
}

/// Where the elements of the array stored under `key` start: just past
/// its `[`.
pub open spec fn array_start_of(data: Seq<u8>, key: Seq<u8>) -> Option<int> {
    match value_start_of(data, key) {
        Some(i) => if i < data.len() && data[i] == 91 {
            Some(i + 1)
        } else {
            None
        },
        None => None,
    }
}

/// Just past the `[` of the array stored under `key`; `None` when the
/// value is not an array.
pub fn object_array_iter_start(data: &[u8], key: &[u8]) -> (r: Option<usize>)
    ensures
        match r {
            Some(i) => array_start_of(data@, key@) == Some(i as int) && i <= data@.len(),
            None => array_start_of(data@, key@) is None,
        },
{
    let i = match json_value_start(data, key) {
        Some(v) => v,
        None => return None,
    };
    if i < data.len() && data[i] == 91 {
        Some(i + 1)
    } else {
        None
    }
}

/// Walks the objects of an array, one `{...}` after the other.
pub struct ObjectArrayIter<'a> {
    pub data: &'a [u8],
    pub pos: usize,
}

impl<'a> ObjectArrayIter<'a> {
    /// Well formed: the position lies within the text, or just past it.
    pub open spec fn wf(&self) -> bool {
        &&& self.data@.len() < usize::MAX
        &&& self.pos <= self.data@.len() + 1
    }

    /// An iterator over the objects of the array stored under `key`.
    pub fn new(data: &'a [u8], key: &[u8]) -> (r: Option<Self>)
        requires
            data@.len() < usize::MAX,
        ensures
            match r {
                Some(it) => it.wf() && it.data == data && array_start_of(data@, key@) == Some(
                    it.pos as int,
                ),
                None => array_start_of(data@, key@) is None,
            },
    {
        match object_array_iter_start(data, key) {
            Some(pos) => Some(ObjectArrayIter { data, pos }),
            None => None,
        }
    }

    /// The next object: separators are skipped, then a `{...}` is read to
    /// its closing brace. `None` at the array's end, at anything that is
    /// not an object, or when the object does not close.
    pub fn next_object(&mut self) -> (r: Option<&'a [u8]>)
        requires
            old(self).wf(),
        ensures
            final(self).wf(),
            final(self).data == old(self).data,
            final(self).pos >= old(self).pos,
            r is Some ==> final(self).pos > old(self).pos,
            final(self).pos == object_at_spec(old(self).data@, old(self).pos as int, false).1,
            match r {
                Some(v) => object_at_spec(old(self).data@, old(self).pos as int, false).0 == Some(v@),
                None => object_at_spec(old(self).data@, old(self).pos as int, false).0 is None,
            },
    {
        let (r, p) = object_at(self.data, self.pos, false);
        self.pos = p;
        r
    }
}

proof fn lemma_skip_while_bound(data: Seq<u8>, i: int, f: spec_fn(u8) -> bool)
    ensures
        0 <= i <= data.len() ==> i <= skip_while(data, i, f) <= data.len(),
        0 <= i <= data.len() && skip_while(data, i, f) < data.len() ==> !f(data[skip_while(data, i, f)]),
    decreases data.len() - i,
{
    if 0 <= i < data.len() && f(data[i]) {
        lemma_skip_while_bound(data, i + 1, f);
    }
}

/// Bytes that part tags: space, comma, slash and bar.
pub open spec fn is_tag_sep(b: u8) -> bool {
    b == 32 || b == 44 || b == 47 || b == 124
}

pub open spec fn tag_sep_fn() -> spec_fn(u8) -> bool {
    |b: u8| is_tag_sep(b)
}

pub open spec fn tag_char_fn() -> spec_fn(u8) -> bool {
    |b: u8| !is_tag_sep(b)
}

/// The tags of `s` from `i`: the runs between separators.
pub open spec fn tags_from(s: Seq<u8>, i: int) -> Seq<Seq<u8>>
    decreases s.len() - i,
{
    let a = skip_while(s, i, tag_sep_fn());
    if i < 0 || a >= s.len() {
        Seq::empty()
    } else {
        let e = skip_while(s, a, tag_char_fn());
        if e <= i || e > s.len() {
            Seq::empty()
        } else {
            seq![s.subrange(a, e)] + tags_from(s, e)
        }
    }
}

/// A string written in quotes, its escapes read and written anew.
pub open spec fn quoted_item(t: Seq<u8>) -> Seq<u8> {
    "\"".spec_bytes() + reescaped(t) + "\"".spec_bytes()
}

pub open spec fn quoted_fn() -> spec_fn(Seq<u8>) -> Seq<u8> {
    |t: Seq<u8>| quoted_item(t)
}

/// The items [`write_tags`] writes for `tags`.
pub open spec fn tag_items(tags: Seq<u8>) -> Seq<Seq<u8>> {
    tags_from(tags, 0).map_values(quoted_fn())
}

/// The units a tag is written in.
pub open spec fn tag_units(t: Seq<u8>) -> Seq<Seq<u8>> {
    seq!["\"".spec_bytes()] + reescape_units_from(t, 0) + seq!["\"".spec_bytes()]
}

/// The tags of `tags` as the units they are written in.
pub open spec fn tag_unit_items(tags: Seq<u8>) -> Seq<Seq<Seq<u8>>> {
    let all = tags_from(tags, 0);
    listed(Seq::new(all.len(), |k: int| tag_units(all[k])))
}

/// Writes the item `"t"` after a comma unless it is the first.
fn put_quoted(payload: &mut [u8], c: &mut usize, first: bool, t: &[u8]) -> (ok: bool)
    requires
        *old(c) <= old(payload)@.len(),
    ensures
        appended(
            old(payload)@,
            *old(c) as int,
            crate::pieces::item_unit(!first, quoted_item(t@)),
            final(payload)@,
            *final(c) as int,
            ok,
        ),
        wrote_units(old(payload)@, *old(c) as int, item_units(!first, tag_units(t@)), final(payload)@, *final(c) as int, ok),
        final(payload)@.len() == old(payload)@.len(),
        *final(c) <= final(payload)@.len(),
{
    let ps = [Piece::Text("\""), Piece::Reescaped(t), Piece::Text("\"")];
    proof {
        reveal_with_fuel(pieces_bytes, 4);
        assert(pieces_bytes(ps@) =~= quoted_item(t@));
        reveal_with_fuel(pieces_units, 4);
        assert(pieces_units(ps@) =~= tag_units(t@));
    }
    put_item(payload, c, first, &ps)
}

/// Writes the tags of `tags` (the runs between spaces, commas, slashes
/// and bars) as quoted JSON strings, comma separated.
pub fn write_tags(payload: &mut [u8], c: &mut usize, tags: &[u8]) -> (ok: bool)
    requires
        *old(c) <= old(payload)@.len(),
    ensures
        appended(old(payload)@, *old(c) as int, joined(tag_items(tags@)), final(payload)@, *final(c) as int, ok),
        wrote_units(old(payload)@, *old(c) as int, concat_units(tag_unit_items(tags@)), final(payload)@, *final(c) as int, ok),
        final(payload)@.len() == old(payload)@.len(),
        *final(c) <= final(payload)@.len(),
{
    let ghost d0 = payload@;
    let ghost c0 = *c as int;
    let ghost all = tags_from(tags@, 0);
    let ghost items = tag_items(tags@);
    let ghost xs = tag_unit_items(tags@);
    let ghost sep = tag_sep_fn();
    let ghost chr = tag_char_fn();
    let mut i: usize = 0;
    let mut count: usize = 0;
    proof {
        lemma_joined_empty(items);
        lemma_units_empty(xs, d0, c0);
        lemma_appended_start(d0, c0);
        assert(all.take(0) + tags_from(tags@, 0) =~= all);
    }
    while i < tags.len()
        invariant
            0 <= i <= tags@.len(),
            d0 == old(payload)@,
            c0 == *old(c) as int,
            0 <= c0 <= d0.len(),
            payload@.len() == d0.len(),
            *c <= payload@.len(),
            all == tags_from(tags@, 0),
            items == all.map_values(quoted_fn()),
            sep == tag_sep_fn(),
            chr == tag_char_fn(),
            count <= all.len(),
            count <= i,
            all == all.take(count as int) + tags_from(tags@, i as int),
            appended(d0, c0, joined(items.take(count as int)), payload@, *c as int, true),
            xs == tag_unit_items(tags@),
            wrote_units(d0, c0, concat_units(xs.take(count as int)), payload@, *c as int, true),
        decreases tags@.len() - i,
    {
        let mut a = i;
        while a < tags.len() && (tags[a] == 32 || tags[a] == 44 || tags[a] == 47 || tags[a] == 124)
            invariant
                i <= a <= tags@.len(),
                sep == tag_sep_fn(),
                skip_while(tags@, i as int, sep) == skip_while(tags@, a as int, sep),
            decreases tags@.len() - a,
        {
            a = a + 1;
        }
        let mut e = a;
        while e < tags.len() && !(tags[e] == 32 || tags[e] == 44 || tags[e] == 47 || tags[e] == 124)
            invariant
                a <= e <= tags@.len(),
                chr == tag_char_fn(),
                skip_while(tags@, a as int, chr) == skip_while(tags@, e as int, chr),
            decreases tags@.len() - e,
        {
            e = e + 1;
        }
        if e > a {
            let ghost t = tags@.subrange(a as int, e as int);
            assert(tags_from(tags@, i as int) == seq![t] + tags_from(tags@, e as int));
            assert(all[count as int] == t) by {
                assert((all.take(count as int) + tags_from(tags@, i as int))[count as int] == t);
            }
            assert(items[count as int] == quoted_item(t));
            assert(xs[count as int] == item_units(count > 0, tag_units(t)));
            let ghost dm = payload@;
            let ghost cm = *c as int;
            let good = put_quoted(payload, c, count == 0, slice_subrange(tags, a, e));
            if !good {
                proof {
                    lemma_item_fail(items, count as int, d0, c0, dm, cm, payload@, *c as int);
                    lemma_units_item_fail(xs, count as int, d0, c0, dm, cm, payload@, *c as int);
                }
                return false;
            }
            proof {
                lemma_item_ok(items, count as int, d0, c0, dm, cm, payload@, *c as int);
                lemma_units_item_ok(xs, count as int, d0, c0, dm, cm, payload@, *c as int);
                assert(all.take(count + 1) + tags_from(tags@, e as int) =~= all) by {
                    assert(all.take(count + 1) =~= all.take(count as int).push(t));
                }
            }
            count = count + 1;
        } else {
            assert(tags_from(tags@, i as int) =~= Seq::<Seq<u8>>::empty());
            assert(tags_from(tags@, e as int) =~= Seq::<Seq<u8>>::empty());
        }
        i = e;
    }
    proof {
        assert(tags_from(tags@, i as int) =~= Seq::<Seq<u8>>::empty());
        assert(all.take(count as int) =~= all);
        assert(items.take(count as int) =~= items);
        assert(xs.take(count as int) =~= xs);
    }
    true
}

/// The first `"` at or after `i`, unless a `]` comes first.
pub open spec fn quote_before_close(data: Seq<u8>, i: int) -> Option<int>
    decreases data.len() - i,
{
    if i < 0 || i >= data.len() {
        None
    } else if data[i] == 34 {
        Some(i)
    } else if data[i] == 93 {
        None
    } else {
        quote_before_close(data, i + 1)
    }
}

/// The first string of the array stored under `key`.
pub open spec fn first_string_of(data: Seq<u8>, key: Seq<u8>) -> Option<Seq<u8>> {
    match array_start_of(data, key) {
        None => None,
        Some(i) => match quote_before_close(data, i) {
            None => None,
            Some(q) => match string_close(data, q + 1) {
                None => None,
                Some(e) => Some(data.subrange(q + 1, e)),
            },
        },
    }
}

/// The raw text of the first string in the array stored under `key`;
/// `None` when the array has no string before its `]` or the string does
/// not close.
pub fn first_string_in_array<'a>(data: &'a [u8], key: &[u8]) -> (r: Option<&'a [u8]>)
    ensures
        match r {
            Some(v) => first_string_of(data@, key@) == Some(v@),
            None => first_string_of(data@, key@) is None,
        },
{
    let mut i = match object_array_iter_start(data, key) {
        Some(v) => v,
        None => return None,
    };
    let ghost i0 = i as int;
    while i < data.len() && data[i] != 34
        invariant
            i0 <= i <= data@.len(),
            array_start_of(data@, key@) == Some(i0),
            quote_before_close(data@, i0) == quote_before_close(data@, i as int),
        decreases data@.len() - i,
    {
        if data[i] == 93 {
            return None;
        }
        i = i + 1;
    }
    if i >= data.len() {
        return None;
    }
    match string_close_exec(data, i + 1) {
        Some(e) => Some(slice_subrange(data, i + 1, e)),
        None => None,
    }
}

/// Bytes that part the strings of an author array.
pub open spec fn is_author_sep(b: u8) -> bool {
    b == 32 || b == 44 || b == 10 || b == 13
}

pub open spec fn author_sep_fn() -> spec_fn(u8) -> bool {
    |b: u8| is_author_sep(b)
}

/// Where a scan of string text from `j` stops: at the closing quote, or
/// at or past the end (a backslash skips the byte after it).
pub open spec fn string_stop(data: Seq<u8>, j: int) -> int
    decreases data.len() + 2 - j,
{
    if j < 0 || j >= data.len() {
        j
    } else if data[j] == 92 {
        string_stop(data, j + 2)
    } else if data[j] == 34 {
        j
    } else {
        string_stop(data, j + 1)
    }
}

/// The strings of an array from `i`, up to its end or the first element
/// that is not a string; and whether a string's scan ran past the end of
/// the text (a backslash as its last byte).
pub open spec fn strings_from(data: Seq<u8>, i: int) -> (Seq<Seq<u8>>, bool)
    decreases data.len() - i,
{
    if i < 0 || i >= data.len() {
        (Seq::empty(), false)
    } else {
        let a = skip_while(data, i, author_sep_fn());
        if a >= data.len() || data[a] != 34 {
            (Seq::empty(), false)
        } else {
            let e = string_stop(data, a + 1);
            if e > data.len() {
                (Seq::empty(), true)
            } else if e < i {
                (Seq::empty(), false)
            } else if e == data.len() {
                (seq![data.subrange(a + 1, e)], false)
            } else {
                let r = strings_from(data, e + 1);
                (seq![data.subrange(a + 1, e)] + r.0, r.1)
            }
        }
    }
}

/// The items [`write_author_array`] writes for the array under `key`.
pub open spec fn author_items(data: Seq<u8>, key: Seq<u8>) -> Seq<Seq<u8>> {
    match array_start_of(data, key) {
        None => Seq::empty(),
        Some(i) => strings_from(data, i).0.map_values(quoted_fn()),
    }
}

/// A string of the array under `key` ends in a backslash at the end of
/// the text, so that its scan runs past it.
pub open spec fn author_scan_overruns(data: Seq<u8>, key: Seq<u8>) -> bool {
    match array_start_of(data, key) {
        None => false,
        Some(i) => strings_from(data, i).1,
    }
}

proof fn lemma_string_stop_bound(data: Seq<u8>, j: int)
    ensures
        0 <= j ==> j <= string_stop(data, j),
        0 <= j <= data.len() ==> string_stop(data, j) <= data.len() + 1,
        0 <= j && string_stop(data, j) < data.len() ==> data[string_stop(data, j)] == 34,
    decreases data.len() + 2 - j,
{
    if 0 <= j < data.len() {
        if data[j] == 92 {
            lemma_string_stop_bound(data, j + 2);
        } else if data[j] != 34 {
            lemma_string_stop_bound(data, j + 1);
        }
    }
}

/// Writes the strings of the array stored under `key` as quoted JSON
/// strings, comma separated, their escapes read and written anew;
/// nothing when there is no such array.
pub fn write_author_array(payload: &mut [u8], c: &mut usize, data: &[u8], key: &[u8]) -> (ok: bool)
    requires
        *old(c) <= old(payload)@.len(),
        data@.len() < usize::MAX,
        !author_scan_overruns(data@, key@),
    ensures
        appended(
            old(payload)@,
            *old(c) as int,
            joined(author_items(data@, key@)),
            final(payload)@,
            *final(c) as int,
            ok,
        ),
        final(payload)@.len() == old(payload)@.len(),
        *final(c) <= final(payload)@.len(),
{
    let ghost d0 = payload@;
    let ghost c0 = *c as int;
    let start = match object_array_iter_start(data, key) {
        Some(v) => v,
        None => {
            proof {
                lemma_joined_empty(Seq::<Seq<u8>>::empty());
                assert(Seq::<Seq<u8>>::empty().take(0) =~= Seq::<Seq<u8>>::empty());
                lemma_appended_start(d0, c0);
            }
            return true;
        },
    };
    let ghost all = strings_from(data@, start as int).0;
    let ghost items = author_items(data@, key@);
    let ghost sep = author_sep_fn();
    let mut i: usize = start;
    let mut count: usize = 0;
    let mut stop = false;
    proof {
        lemma_joined_empty(items);
        lemma_appended_start(d0, c0);
        assert(all.take(0) + strings_from(data@, start as int).0 =~= all);
    }
    while !stop && i < data.len()
        invariant
            stop ==> strings_from(data@, i as int).0 =~= Seq::<Seq<u8>>::empty(),
            items == author_items(data@, key@),
            array_start_of(data@, key@) == Some(start as int),
            start <= i <= data@.len() + 1,
            data@.len() < usize::MAX,
            d0 == old(payload)@,
            c0 == *old(c) as int,
            0 <= c0 <= d0.len(),
            payload@.len() == d0.len(),
            *c <= payload@.len(),
            all == strings_from(data@, start as int).0,
            !strings_from(data@, start as int).1,
            strings_from(data@, i as int).1 == strings_from(data@, start as int).1,
            items == all.map_values(quoted_fn()),
            sep == author_sep_fn(),
            count <= all.len(),
            count <= i,
            all == all.take(count as int) + strings_from(data@, i as int).0,
            appended(d0, c0, joined(items.take(count as int)), payload@, *c as int, true),
        decreases data@.len() + 1 - i, if stop { 0int } else { 1int },
    {
        let mut a = i;
        while a < data.len() && (data[a] == 32 || data[a] == 44 || data[a] == 10 || data[a] == 13)
            invariant
                i <= a <= data@.len(),
                sep == author_sep_fn(),
                skip_while(data@, i as int, sep) == skip_while(data@, a as int, sep),
            decreases data@.len() - a,
        {
            a = a + 1;
        }
        if a >= data.len() || data[a] != 34 {
            stop = true;
            continue;
        }
        let mut e = a + 1;
        while e < data.len() && data[e] != 34
            invariant
                a + 1 <= e <= data@.len() + 1,
                data@.len() < usize::MAX,
                string_stop(data@, a + 1) == string_stop(data@, e as int),
            decreases data@.len() + 2 - e,
        {
            if data[e] == 92 {
                e = e + 2;
            } else {
                e = e + 1;
            }
        }
        proof {
            lemma_string_stop_bound(data@, a + 1);
        }
        let ghost t = data@.subrange(a + 1, e as int);
        assert(strings_from(data@, i as int).0 == seq![t] + strings_from(data@, e + 1).0) by {
            if e == data.len() {
                assert(strings_from(data@, e + 1).0 =~= Seq::<Seq<u8>>::empty());
                assert(seq![t] + Seq::<Seq<u8>>::empty() =~= seq![t]);
            }
        }
        assert(all[count as int] == t) by {
            assert((all.take(count as int) + strings_from(data@, i as int).0)[count as int] == t);
        }
        assert(items[count as int] == quoted_item(t));
        let ghost dm = payload@;
        let ghost cm = *c as int;
        let good = put_quoted(payload, c, count == 0, slice_subrange(data, a + 1, e));
        if !good {
            proof {
                lemma_item_fail(items, count as int, d0, c0, dm, cm, payload@, *c as int);
            }
            return false;
        }
        proof {
            lemma_item_ok(items, count as int, d0, c0, dm, cm, payload@, *c as int);
            assert(all.take(count + 1) + strings_from(data@, e + 1).0 =~= all) by {
                assert(all.take(count + 1) =~= all.take(count as int).push(t));
            }
        }
        count = count + 1;
        i = e + 1;
    }
    proof {
        assert(strings_from(data@, i as int).0 =~= Seq::<Seq<u8>>::empty());
        assert(all.take(count as int) =~= all);
        assert(items.take(count as int) =~= items);
    }
    true
}

/// A value found under a key, or a default.
pub open spec fn or_default(v: Option<Seq<u8>>, d: Seq<u8>) -> Seq<u8> {
    match v {
        Some(x) => x,
        None => d,
    }
}

/// The status number of an API manga object: its `mangaIsOver` digits,
/// or 9 when there are none.
pub open spec fn status_number(obj: Seq<u8>) -> usize {
    match number_value_of(obj, "mangaIsOver".spec_bytes()) {
        Some(d) => digits_wrapping(d),
        None => 9,
    }
}

/// The text of a manga item before its tags.
pub open spec fn item_head(obj: Seq<u8>) -> Seq<u8> {
    let id = or_default(number_value_of(obj, "mangaId".spec_bytes()), "0".spec_bytes());
    let title = or_default(string_value_of(obj, "mangaName".spec_bytes()), "Unknown".spec_bytes());
    let cover = or_default(string_value_of(obj, "mangaCoverimageUrl".spec_bytes()), Seq::empty());
    let author = or_default(string_value_of(obj, "mangaAuthor".spec_bytes()), Seq::empty());
    "{\"id\":\"mhr:".spec_bytes() + escaped(id) + "\",\"title\":\"".spec_bytes() + reescaped(title)
        + "\",\"cover\":".spec_bytes() + (if cover.len() == 0 {
        "{\"kind\":\"none\"}".spec_bytes()
    } else {
        "{\"kind\":\"url\",\"url\":\"".spec_bytes() + reescaped(cover) + "\"}".spec_bytes()
    }) + ",\"authors\":[".spec_bytes() + (if author.len() == 0 {
        Seq::empty()
    } else {
        quoted_item(author)
    }) + "],\"status\":\"".spec_bytes() + status_name(status_number(obj)) + ITEM_TAGS.spec_bytes()
}

pub const ITEM_TAGS: &'static str = "\",\"contentRating\":\"safe\",\"sourceTags\":[\"manhuaren\"";

/// The manga item written for an API manga object.
pub open spec fn manga_item_json(obj: Seq<u8>) -> Seq<u8> {
    let theme = or_default(string_value_of(obj, "mangaTheme".spec_bytes()), Seq::empty());
    item_head(obj) + (if theme.len() == 0 {
        Seq::empty()
    } else {
        ",".spec_bytes() + joined(tag_items(theme))
    }) + "]}".spec_bytes()
}

proof fn lemma_pieces_7(ps: Seq<Piece>)
    requires
        ps.len() == 7,
    ensures
        pieces_bytes(ps) == piece_bytes(ps[0]) + piece_bytes(ps[1]) + piece_bytes(ps[2]) + piece_bytes(
            ps[3],
        ) + piece_bytes(ps[4]) + piece_bytes(ps[5]) + piece_bytes(ps[6]),
{
    reveal_with_fuel(pieces_bytes, 8);
    assert(ps.drop_last().drop_last().drop_last().drop_last().drop_last().drop_last().drop_last()
        =~= Seq::<Piece>::empty());
    assert(Seq::<u8>::empty() + piece_bytes(ps[0]) =~= piece_bytes(ps[0]));
}

proof fn lemma_pieces_8(ps: Seq<Piece>)
    requires
        ps.len() == 8,
    ensures
        pieces_bytes(ps) == piece_bytes(ps[0]) + piece_bytes(ps[1]) + piece_bytes(ps[2]) + piece_bytes(
            ps[3],
        ) + piece_bytes(ps[4]) + piece_bytes(ps[5]) + piece_bytes(ps[6]) + piece_bytes(ps[7]),
{
    lemma_pieces_7(ps.drop_last());
    assert(ps.drop_last()[0] == ps[0] && ps.drop_last()[6] == ps[6]);
}

/// The first part of a manga item's head: id, title and cover.
pub open spec fn head_front(obj: Seq<u8>) -> Seq<u8> {
    let id = or_default(number_value_of(obj, "mangaId".spec_bytes()), "0".spec_bytes());
    let title = or_default(string_value_of(obj, "mangaName".spec_bytes()), "Unknown".spec_bytes());
    let cover = or_default(string_value_of(obj, "mangaCoverimageUrl".spec_bytes()), Seq::empty());
    "{\"id\":\"mhr:".spec_bytes() + escaped(id) + "\",\"title\":\"".spec_bytes() + reescaped(title)
        + "\",\"cover\":".spec_bytes() + (if cover.len() == 0 {
        "{\"kind\":\"none\"}".spec_bytes()
    } else {
        "{\"kind\":\"url\",\"url\":\"".spec_bytes() + reescaped(cover) + "\"}".spec_bytes()
    })
}

/// The second part of a manga item's head: authors and status.
pub open spec fn head_back(obj: Seq<u8>) -> Seq<u8> {
    let author = or_default(string_value_of(obj, "mangaAuthor".spec_bytes()), Seq::empty());
    ",\"authors\":[".spec_bytes() + (if author.len() == 0 {
        Seq::empty()
    } else {
        quoted_item(author)
    }) + "],\"status\":\"".spec_bytes() + status_name(status_number(obj)) + ITEM_TAGS.spec_bytes()
}

/// The units the first part of a manga item's head is written in.
pub open spec fn head_front_units(obj: Seq<u8>) -> Seq<Seq<u8>> {
    let id = or_default(number_value_of(obj, "mangaId".spec_bytes()), "0".spec_bytes());
    let title = or_default(string_value_of(obj, "mangaName".spec_bytes()), "Unknown".spec_bytes());
    let cover = or_default(string_value_of(obj, "mangaCoverimageUrl".spec_bytes()), Seq::empty());
    seq!["{\"id\":\"mhr:".spec_bytes()] + byte_units(id, escape_fn()) + seq!["\",\"title\":\"".spec_bytes()]
        + reescape_units_from(title, 0) + seq!["\",\"cover\":".spec_bytes()] + (if cover.len() == 0 {
        seq!["{\"kind\":\"none\"}".spec_bytes()]
    } else {
        seq!["{\"kind\":\"url\",\"url\":\"".spec_bytes()] + reescape_units_from(cover, 0) + seq!["\"}".spec_bytes()]
    })
}

/// The units the second part of a manga item's head is written in.
pub open spec fn head_back_units(obj: Seq<u8>) -> Seq<Seq<u8>> {
    let author = or_default(string_value_of(obj, "mangaAuthor".spec_bytes()), Seq::empty());
    seq![",\"authors\":[".spec_bytes()] + (if author.len() == 0 {
        Seq::empty()
    } else {
        seq!["\"".spec_bytes()] + reescape_units_from(author, 0) + seq!["\"".spec_bytes()]
    }) + seq!["],\"status\":\"".spec_bytes(), status_name(status_number(obj)), ITEM_TAGS.spec_bytes()]
}

#[verifier::spinoff_prover]
#[verifier::rlimit(80)]
fn write_head_front(payload: &mut [u8], c: &mut usize, obj: &[u8]) -> (ok: bool)
    requires
        *old(c) <= old(payload)@.len(),
    ensures
        appended(old(payload)@, *old(c) as int, head_front(obj@), final(payload)@, *final(c) as int, ok),
        wrote_units(old(payload)@, *old(c) as int, head_front_units(obj@), final(payload)@, *final(c) as int, ok),
        final(payload)@.len() == old(payload)@.len(),
        *final(c) <= final(payload)@.len(),
{
    let id_num = match extract_json_number(obj, "mangaId".as_bytes()) {
        Some(v) => v,
        None => "0".as_bytes(),
    };
    let title = match extract_json_string(obj, "mangaName".as_bytes()) {
        Some(v) => v,
        None => "Unknown".as_bytes(),
    };
    let cover = match extract_json_string(obj, "mangaCoverimageUrl".as_bytes()) {
        Some(v) => v,
        None => "".as_bytes(),
    };
    proof {
        reveal_strlit("");
    }
    if cover.len() == 0 {
        let ps = [
            Piece::Text("{\"id\":\"mhr:"),
            Piece::Escaped(id_num),
            Piece::Text("\",\"title\":\""),
            Piece::Reescaped(title),
            Piece::Text("\",\"cover\":"),
            Piece::Text("{\"kind\":\"none\"}"),
        ];
        proof {
            reveal_with_fuel(pieces_bytes, 7);
            assert(pieces_bytes(ps@) =~= head_front(obj@));
            reveal_with_fuel(pieces_units, 7);
            assert(pieces_units(ps@) =~= head_front_units(obj@));
        }
        put_pieces(payload, c, &ps)
    } else {
        let ps = [
            Piece::Text("{\"id\":\"mhr:"),
            Piece::Escaped(id_num),
            Piece::Text("\",\"title\":\""),
            Piece::Reescaped(title),
            Piece::Text("\",\"cover\":"),
            Piece::Text("{\"kind\":\"url\",\"url\":\""),
            Piece::Reescaped(cover),
            Piece::Text("\"}"),
        ];
        proof {
            lemma_pieces_8(ps@);
            assert(pieces_bytes(ps@) =~= head_front(obj@));
            reveal_with_fuel(pieces_units, 9);
            assert(pieces_units(ps@) =~= head_front_units(obj@));
        }
        put_pieces(payload, c, &ps)
    }
}

#[verifier::spinoff_prover]
#[verifier::rlimit(80)]
fn write_head_back(payload: &mut [u8], c: &mut usize, obj: &[u8]) -> (ok: bool)
    requires
        *old(c) <= old(payload)@.len(),
    ensures
        appended(old(payload)@, *old(c) as int, head_back(obj@), final(payload)@, *final(c) as int, ok),
        wrote_units(old(payload)@, *old(c) as int, head_back_units(obj@), final(payload)@, *final(c) as int, ok),
        final(payload)@.len() == old(payload)@.len(),
        *final(c) <= final(payload)@.len(),
{
    let author = match extract_json_string(obj, "mangaAuthor".as_bytes()) {
        Some(v) => v,
        None => "".as_bytes(),
    };
    let status_num = match extract_json_number(obj, "mangaIsOver".as_bytes()) {
        Some(d) => parse_usize(d),
        None => 9,
    };
    proof {
        reveal_strlit("");
        assert(status_num == status_number(obj@));
    }
    if author.len() == 0 {
        let ps = [
            Piece::Text(",\"authors\":["),
            Piece::Text("],\"status\":\""),
            Piece::Raw(status_from_i32(status_num)),
            Piece::Text(ITEM_TAGS),
        ];
        proof {
            reveal_with_fuel(pieces_bytes, 5);
            assert(pieces_bytes(ps@) =~= head_back(obj@));
            reveal_with_fuel(pieces_units, 5);
            assert(pieces_units(ps@) =~= head_back_units(obj@));
        }
        put_pieces(payload, c, &ps)
    } else {
        let ps = [
            Piece::Text(",\"authors\":["),
            Piece::Text("\""),
            Piece::Reescaped(author),
            Piece::Text("\""),
            Piece::Text("],\"status\":\""),
            Piece::Raw(status_from_i32(status_num)),
            Piece::Text(ITEM_TAGS),
        ];
        proof {
            lemma_pieces_7(ps@);
            assert(pieces_bytes(ps@) =~= head_back(obj@));
            reveal_with_fuel(pieces_units, 8);
            assert(pieces_units(ps@) =~= head_back_units(obj@));
        }
        put_pieces(payload, c, &ps)
    }
}

/// Writes the part of a manga item before its tags.
fn write_item_head(payload: &mut [u8], c: &mut usize, obj: &[u8]) -> (ok: bool)
    requires
        *old(c) <= old(payload)@.len(),
    ensures
        appended(old(payload)@, *old(c) as int, item_head(obj@), final(payload)@, *final(c) as int, ok),
        wrote_units(
            old(payload)@,
            *old(c) as int,
            head_front_units(obj@) + head_back_units(obj@),
            final(payload)@,
            *final(c) as int,
            ok,
        ),
        final(payload)@.len() == old(payload)@.len(),
        *final(c) <= final(payload)@.len(),
{
    let ghost d0 = payload@;
    let ghost c0 = *c as int;
    let ghost f = head_front(obj@);
    let ghost b = head_back(obj@);
    assert(f + b =~= item_head(obj@));
    if !write_head_front(payload, c, obj) {
        proof {
            lemma_appended_fail_extend(d0, c0, f, payload@, *c as int, b);
            lemma_wrote_fail_extend(d0, c0, head_front_units(obj@), payload@, *c as int, head_back_units(obj@));
        }
        return false;
    }
    let ghost dm = payload@;
    let ghost cm = *c as int;
    let good = write_head_back(payload, c, obj);
    proof {
        lemma_appended_then(d0, c0, f, dm, cm, b, payload@, *c as int, good);
        lemma_wrote_then(d0, c0, head_front_units(obj@), dm, cm, head_back_units(obj@), payload@, *c as int, good);
    }
    good
}

/// The units the manga item of an API manga object is written in.
pub open spec fn manga_units(obj: Seq<u8>) -> Seq<Seq<u8>> {
    let theme = or_default(string_value_of(obj, "mangaTheme".spec_bytes()), Seq::empty());
    head_front_units(obj) + head_back_units(obj) + (if theme.len() == 0 {
        Seq::empty()
    } else {
        seq![",".spec_bytes()] + concat_units(tag_unit_items(theme))
    }) + seq!["]}".spec_bytes()]
}

/// Writes the manga item of an API manga object: its id, title, cover,
/// author, status and theme tags.
#[verifier::spinoff_prover]
#[verifier::rlimit(80)]
pub fn write_manga_item(payload: &mut [u8], c: &mut usize, obj: &[u8]) -> (ok: bool)
    requires
        *old(c) <= old(payload)@.len(),
    ensures
        appended(old(payload)@, *old(c) as int, manga_item_json(obj@), final(payload)@, *final(c) as int, ok),
        wrote_units(old(payload)@, *old(c) as int, manga_units(obj@), final(payload)@, *final(c) as int, ok),
        final(payload)@.len() == old(payload)@.len(),
        *final(c) <= final(payload)@.len(),
{
    let ghost d0 = payload@;
    let ghost c0 = *c as int;
    let theme = match extract_json_string(obj, "mangaTheme".as_bytes()) {
        Some(v) => v,
        None => "".as_bytes(),
    };
    proof {
        reveal_strlit("");
    }
    let ghost head = item_head(obj@);
    let ghost tags = joined(tag_items(theme@));
    let ghost close = "]}".spec_bytes();
    let ghost theme_part = if theme@.len() == 0 {
        Seq::<u8>::empty()
    } else {
        ",".spec_bytes() + tags
    };
    assert(head + theme_part + close =~= manga_item_json(obj@));
    let ghost hu = head_front_units(obj@) + head_back_units(obj@);
    let ghost tu = concat_units(tag_unit_items(theme@));
    let ghost cu = seq!["]}".spec_bytes()];
    let ghost theme_units = if theme@.len() == 0 {
        Seq::<Seq<u8>>::empty()
    } else {
        seq![",".spec_bytes()] + tu
    };
    assert(hu + theme_units + cu =~= manga_units(obj@));
    if !write_item_head(payload, c, obj) {
        proof {
            lemma_appended_fail_extend(d0, c0, head, payload@, *c as int, theme_part + close);
            assert(head + (theme_part + close) =~= head + theme_part + close);
            lemma_wrote_fail_extend(d0, c0, hu, payload@, *c as int, theme_units + cu);
            assert(hu + (theme_units + cu) =~= hu + theme_units + cu);
        }
        return false;
    }
    if theme.len() > 0 {
        let ghost dm = payload@;
        let ghost cm = *c as int;
        let good = put_str(payload, c, ",");
        proof {
            lemma_appended_then(d0, c0, head, dm, cm, ",".spec_bytes(), payload@, *c as int, good);
            lemma_wrote_then(d0, c0, hu, dm, cm, seq![",".spec_bytes()], payload@, *c as int, good);
        }
        if !good {
            proof {
                lemma_appended_fail_extend(d0, c0, head + ",".spec_bytes(), payload@, *c as int, tags + close);
                assert(head + ",".spec_bytes() + (tags + close) =~= head + theme_part + close);
                lemma_wrote_fail_extend(d0, c0, hu + seq![",".spec_bytes()], payload@, *c as int, tu + cu);
                assert(hu + seq![",".spec_bytes()] + (tu + cu) =~= hu + theme_units + cu);
            }
            return false;
        }
        let ghost dm = payload@;
        let ghost cm = *c as int;
        let good = write_tags(payload, c, theme);
        proof {
            lemma_appended_then(d0, c0, head + ",".spec_bytes(), dm, cm, tags, payload@, *c as int, good);
            assert(head + ",".spec_bytes() + tags =~= head + theme_part);
            lemma_wrote_then(d0, c0, hu + seq![",".spec_bytes()], dm, cm, tu, payload@, *c as int, good);
            assert(hu + seq![",".spec_bytes()] + tu =~= hu + theme_units);
        }
        if !good {
            proof {
                lemma_appended_fail_extend(d0, c0, head + theme_part, payload@, *c as int, close);
                lemma_wrote_fail_extend(d0, c0, hu + theme_units, payload@, *c as int, cu);
            }
            return false;
        }
    } else {
        assert(head + theme_part =~= head);
        assert(hu + theme_units =~= hu);
    }
    let ghost dm = payload@;
    let ghost cm = *c as int;
    let good = put_str(payload, c, "]}");
    proof {
        lemma_appended_then(d0, c0, head + theme_part, dm, cm, close, payload@, *c as int, good);
        lemma_wrote_then(d0, c0, hu + theme_units, dm, cm, cu, payload@, *c as int, good);
    }
    good
}

proof fn lemma_pieces_9(ps: Seq<Piece>)
    requires
        ps.len() == 9,
    ensures
        pieces_bytes(ps) == piece_bytes(ps[0]) + piece_bytes(ps[1]) + piece_bytes(ps[2]) + piece_bytes(
            ps[3],
        ) + piece_bytes(ps[4]) + piece_bytes(ps[5]) + piece_bytes(ps[6]) + piece_bytes(ps[7])
            + piece_bytes(ps[8]),
{
    lemma_pieces_8(ps.drop_last());
    assert(ps.drop_last()[0] == ps[0] && ps.drop_last()[7] == ps[7]);
}

pub const LOCK_MARK: &'static str = "(锁) ";

pub const EXTRA_MARK: &'static str = "[番外] ";

pub const CHAPTER_MID: &'static str = "\",\"volumeNumber\":null,\"language\":\"zh\",\"publishedAt\":";

pub const CHAPTER_TAIL: &'static str = ",\"updatedAt\":null,\"pageCount\":null}";

/// A chapter is locked when its `isMustPay` number is 1.
pub open spec fn chapter_locked(obj: Seq<u8>) -> bool {
    match number_value_of(obj, "isMustPay".spec_bytes()) {
        Some(d) => digits_wrapping(d) == 1,
        None => false,
    }
}

/// A chapter's id, manga id and the marks before its title.
pub open spec fn chapter_front(obj: Seq<u8>, extra: bool, manga_id: Seq<u8>) -> Seq<u8> {
    let id = or_default(number_value_of(obj, "sectionId".spec_bytes()), "0".spec_bytes());
    let name = or_default(string_value_of(obj, "sectionName".spec_bytes()), Seq::empty());
    "{\"id\":\"".spec_bytes() + escaped(id) + "\",\"mangaId\":\"mhr:".spec_bytes() + escaped(manga_id)
        + "\",\"title\":\"".spec_bytes() + (if chapter_locked(obj) {
        LOCK_MARK.spec_bytes()
    } else {
        Seq::empty()
    }) + (if extra {
        EXTRA_MARK.spec_bytes()
    } else {
        Seq::empty()
    }) + reescaped(name)
}

/// The rest of a chapter: its title's second part, number and date.
pub open spec fn chapter_back(obj: Seq<u8>) -> Seq<u8> {
    let title = or_default(string_value_of(obj, "sectionTitle".spec_bytes()), Seq::empty());
    let sort = or_default(number_value_of(obj, "sectionSort".spec_bytes()), "0".spec_bytes());
    let release = or_default(string_value_of(obj, "releaseTime".spec_bytes()), Seq::empty());
    (if title.len() == 0 {
        Seq::empty()
    } else {
        ": ".spec_bytes() + reescaped(title)
    }) + "\",\"chapterNumber\":\"".spec_bytes() + escaped(sort) + CHAPTER_MID.spec_bytes() + (if release.len()
        == 0 {
        "null".spec_bytes()
    } else {
        quoted_item(release)
    }) + CHAPTER_TAIL.spec_bytes()
}

/// The chapter written for an API section object of manga `manga_id`;
/// `extra` marks the side stories.
pub open spec fn chapter_json(obj: Seq<u8>, extra: bool, manga_id: Seq<u8>) -> Seq<u8> {
    chapter_front(obj, extra, manga_id) + chapter_back(obj)
}

fn write_chapter_front(payload: &mut [u8], c: &mut usize, obj: &[u8], extra: bool, manga_id: &[u8]) -> (ok: bool)
    requires
        *old(c) <= old(payload)@.len(),
    ensures
        appended(old(payload)@, *old(c) as int, chapter_front(obj@, extra, manga_id@), final(payload)@, *final(c) as int, ok),
        final(payload)@.len() == old(payload)@.len(),
        *final(c) <= final(payload)@.len(),
{
    let ch_id = match extract_json_number(obj, "sectionId".as_bytes()) {
        Some(v) => v,
        None => "0".as_bytes(),
    };
    let name = match extract_json_string(obj, "sectionName".as_bytes()) {
        Some(v) => v,
        None => "".as_bytes(),
    };
    let locked = match extract_json_number(obj, "isMustPay".as_bytes()) {
        Some(d) => parse_usize(d),
        None => 0,
    } == 1;
    let ps = [
        Piece::Text("{\"id\":\""),
        Piece::Escaped(ch_id),
        Piece::Text("\",\"mangaId\":\"mhr:"),
        Piece::Escaped(manga_id),
        Piece::Text("\",\"title\":\""),
        if locked { Piece::Text(LOCK_MARK) } else { Piece::Text("") },
        if extra { Piece::Text(EXTRA_MARK) } else { Piece::Text("") },
        Piece::Reescaped(name),
    ];
    proof {
        reveal_strlit("");
        lemma_pieces_8(ps@);
        assert(locked == chapter_locked(obj@));
        assert(pieces_bytes(ps@) =~= chapter_front(obj@, extra, manga_id@));
    }
    put_pieces(payload, c, &ps)
}

fn write_chapter_back(payload: &mut [u8], c: &mut usize, obj: &[u8]) -> (ok: bool)
    requires
        *old(c) <= old(payload)@.len(),
    ensures
        appended(old(payload)@, *old(c) as int, chapter_back(obj@), final(payload)@, *final(c) as int, ok),
        final(payload)@.len() == old(payload)@.len(),
        *final(c) <= final(payload)@.len(),
{
    let title = match extract_json_string(obj, "sectionTitle".as_bytes()) {
        Some(v) => v,
        None => "".as_bytes(),
    };
    let sort = match extract_json_number(obj, "sectionSort".as_bytes()) {
        Some(v) => v,
        None => "0".as_bytes(),
    };
    let release = match extract_json_string(obj, "releaseTime".as_bytes()) {
        Some(v) => v,
        None => "".as_bytes(),
    };
    let (t1, t2) = if title.len() == 0 {
        (Piece::Text(""), Piece::Raw(title))
    } else {
        (Piece::Text(": "), Piece::Reescaped(title))
    };
    let (r1, r2, r3) = if release.len() == 0 {
        (Piece::Text("null"), Piece::Raw(release), Piece::Text(""))
    } else {
        (Piece::Text("\""), Piece::Reescaped(release), Piece::Text("\""))
    };
    let ps = [
        t1,
        t2,
        Piece::Text("\",\"chapterNumber\":\""),
        Piece::Escaped(sort),
        Piece::Text(CHAPTER_MID),
        r1,
        r2,
        r3,
        Piece::Text(CHAPTER_TAIL),
    ];
    proof {
        reveal_strlit("");
        lemma_pieces_9(ps@);
        assert(pieces_bytes(ps@) =~= chapter_back(obj@));
    }
    put_pieces(payload, c, &ps)
}

/// Writes the chapter of an API section object, after a comma unless
/// `first`.
pub fn write_chapter(
    payload: &mut [u8],
    c: &mut usize,
    first: bool,
    obj: &[u8],
    extra: bool,
    manga_id: &[u8],
) -> (ok: bool)
    requires
        *old(c) <= old(payload)@.len(),
    ensures
        appended(
            old(payload)@,
            *old(c) as int,
            item_unit(!first, chapter_json(obj@, extra, manga_id@)),
            final(payload)@,
            *final(c) as int,
            ok,
        ),
        final(payload)@.len() == old(payload)@.len(),
        *final(c) <= final(payload)@.len(),
{
    let ghost d0 = payload@;
    let ghost c0 = *c as int;
    let ghost f = chapter_front(obj@, extra, manga_id@);
    let ghost b = chapter_back(obj@);
    let ghost sep = if first { Seq::<u8>::empty() } else { ",".spec_bytes() };
    assert(item_unit(!first, chapter_json(obj@, extra, manga_id@)) =~= sep + f + b);
    if !first {
        let good = put_str(payload, c, ",");
        if !good {
            proof {
                lemma_appended_fail_extend(d0, c0, sep, payload@, *c as int, f + b);
                assert(sep + (f + b) =~= sep + f + b);
            }
            return false;
        }
    } else {
        proof {
            lemma_appended_start(d0, c0);
        }
    }
    let ghost dm = payload@;
    let ghost cm = *c as int;
    let good = write_chapter_front(payload, c, obj, extra, manga_id);
    proof {
        lemma_appended_then(d0, c0, sep, dm, cm, f, payload@, *c as int, good);
    }
    if !good {
        proof {
            lemma_appended_fail_extend(d0, c0, sep + f, payload@, *c as int, b);
        }
        return false;
    }
    let ghost dm = payload@;
    let ghost cm = *c as int;
    let good = write_chapter_back(payload, c, obj);
    proof {
        lemma_appended_then(d0, c0, sep + f, dm, cm, b, payload@, *c as int, good);
    }
    good
}

/// The objects of an array read from `pos` one after the other, up to
/// the first place where no object can be read.
pub open spec fn objects_from(data: Seq<u8>, pos: int) -> Seq<Seq<u8>>
    decreases data.len() + 2 - pos,
{
    let (o, p) = object_at_spec(data, pos, false);
    match o {
        None => Seq::empty(),
        Some(v) => if p <= pos || p > data.len() + 1 {
            Seq::empty()
        } else {
            seq![v] + objects_from(data, p)
        },
    }
}

/// The objects of the array stored under `key`.
pub open spec fn objects_under(data: Seq<u8>, key: Seq<u8>) -> Seq<Seq<u8>> {
    match array_start_of(data, key) {
        None => Seq::empty(),
        Some(i) => objects_from(data, i),
    }
}

/// The chapters written for the section objects `objs`, after `w0`
/// chapters already written.
pub open spec fn chapter_units(objs: Seq<Seq<u8>>, extra: bool, manga_id: Seq<u8>, w0: int) -> Seq<Seq<u8>> {
    Seq::new(objs.len(), |k: int| item_unit(w0 + k > 0, chapter_json(objs[k], extra, manga_id)))
}

/// Writes a chapter for each object of the array stored under `key`,
/// counting them in `written` (a comma goes before each but the very
/// first); stops at the first that does not fit. Nothing is written when
/// there is no such array.
pub fn write_chapters_from_array(
    payload: &mut [u8],
    c: &mut usize,
    api_json: &[u8],
    key: &[u8],
    extra: bool,
    written: &mut usize,
    manga_id: &[u8],
) -> (ok: bool)
    requires
        *old(c) <= old(payload)@.len(),
        *old(written) + api_json@.len() < usize::MAX,
    ensures
        appended(
            old(payload)@,
            *old(c) as int,
            flat(chapter_units(objects_under(api_json@, key@), extra, manga_id@, *old(written) as int)),
            final(payload)@,
            *final(c) as int,
            ok,
        ),
        ok ==> *final(written) == *old(written) + objects_under(api_json@, key@).len(),
        *old(written) <= *final(written) <= *old(written) + objects_under(api_json@, key@).len(),
        final(payload)@.len() == old(payload)@.len(),
        *final(c) <= final(payload)@.len(),
{
    let ghost d0 = payload@;
    let ghost c0 = *c as int;
    let ghost w0 = *written as int;
    let mut iter = match ObjectArrayIter::new(api_json, key) {
        Some(it) => it,
        None => {
            proof {
                let us = chapter_units(objects_under(api_json@, key@), extra, manga_id@, w0);
                assert(us.take(0) =~= us);
                lemma_flat_empty(us);
                lemma_appended_start(d0, c0);
            }
            return true;
        },
    };
    let ghost start = iter.pos as int;
    let ghost objs = objects_from(api_json@, start);
    let ghost us = chapter_units(objs, extra, manga_id@, w0);
    proof {
        lemma_flat_empty(us);
        lemma_appended_start(d0, c0);
        assert(objs.take(0) + objs =~= objs);
    }
    loop
        invariant_except_break
            objs == objs.take(*written - w0) + objects_from(api_json@, iter.pos as int),
        invariant
            iter.wf(),
            iter.data == api_json,
            start <= iter.pos,
            d0 == old(payload)@,
            c0 == *old(c) as int,
            0 <= c0 <= d0.len(),
            w0 == *old(written) as int,
            w0 + api_json@.len() < usize::MAX,
            payload@.len() == d0.len(),
            *c <= payload@.len(),
            objs == objects_from(api_json@, start),
            objs == objects_under(api_json@, key@),
            us == chapter_units(objs, extra, manga_id@, w0),
            w0 <= *written,
            *written - w0 <= objs.len(),
            *written - w0 <= iter.pos - start,
            appended(d0, c0, flat(us.take(*written - w0)), payload@, *c as int, true),
        ensures
            *written == w0 + objs.len(),
            appended(d0, c0, flat(us), payload@, *c as int, true),
            payload@.len() == d0.len(),
            *c <= payload@.len(),
        decreases api_json@.len() + 2 - iter.pos,
    {
        let ghost p0 = iter.pos as int;
        let obj = match iter.next_object() {
            Some(o) => o,
            None => {
                proof {
                    assert(objects_from(api_json@, p0) =~= Seq::<Seq<u8>>::empty());
                    assert(objs.take(*written - w0) =~= objs);
                    assert(us.take(*written - w0) =~= us);
                }
                break;
            },
        };
        let ghost k = *written - w0;
        assert(objects_from(api_json@, p0) == seq![obj@] + objects_from(api_json@, iter.pos as int));
        assert(objs[k] == obj@) by {
            assert((objs.take(k) + objects_from(api_json@, p0))[k] == obj@);
        }
        assert(us[k] == item_unit(*written > 0, chapter_json(obj@, extra, manga_id@)));
        let ghost dm = payload@;
        let ghost cm = *c as int;
        let good = write_chapter(payload, c, *written == 0, obj, extra, manga_id);
        if !good {
            proof {
                lemma_unit_fail(us, k, d0, c0, dm, cm, payload@, *c as int);
            }
            return false;
        }
        proof {
            lemma_unit_ok(us, k, d0, c0, dm, cm, payload@, *c as int);
            assert(objs.take(k + 1) + objects_from(api_json@, iter.pos as int) =~= objs) by {
                assert(objs.take(k + 1) =~= objs.take(k).push(obj@));
            }
        }
        *written = *written + 1;
    }
    true
}

pub const ITEMS_OPEN: &'static str = "{\"items\":[";

pub const CHAPTERS_CLOSE: &'static str = "],\"page\":{\"nextCursor\":null,\"hasMore\":false}}";

/// The chapter list of manga `id` from its detail reply: the side stories
/// (`mangaEpisode`, marked), then `mangaWords` and `mangaRolls`.
pub open spec fn chapters_json(api_json: Seq<u8>, id: Seq<u8>) -> Seq<u8> {
    let e = objects_under(api_json, "mangaEpisode".spec_bytes());
    let w = objects_under(api_json, "mangaWords".spec_bytes());
    let r = objects_under(api_json, "mangaRolls".spec_bytes());
    ITEMS_OPEN.spec_bytes() + flat(chapter_units(e, true, id, 0)) + flat(chapter_units(w, false, id, e.len() as int))
        + flat(chapter_units(r, false, id, (e.len() + w.len()) as int)) + CHAPTERS_CLOSE.spec_bytes()
}

/// Writes the chapter list of manga `id` from its detail reply; its
/// length, or `None` when it does not fit.
pub fn chapters_payload(api_json: &[u8], id: &[u8], payload: &mut [u8]) -> (r: Option<usize>)
    requires
        3 * api_json@.len() + 3 < usize::MAX,
    ensures
        final(payload)@.len() == old(payload)@.len(),
        match r {
            Some(n) => n == chapters_json(api_json@, id@).len() && final(payload)@.take(n as int)
                == chapters_json(api_json@, id@),
            None => chapters_json(api_json@, id@).len() > old(payload)@.len(),
        },
{
    let ghost d0 = payload@;
    let ghost e = objects_under(api_json@, "mangaEpisode".spec_bytes());
    let ghost w = objects_under(api_json@, "mangaWords".spec_bytes());
    let ghost rl = objects_under(api_json@, "mangaRolls".spec_bytes());
    let ghost u0 = ITEMS_OPEN.spec_bytes();
    let ghost u1 = flat(chapter_units(e, true, id@, 0));
    let ghost u2 = flat(chapter_units(w, false, id@, e.len() as int));
    let ghost u3 = flat(chapter_units(rl, false, id@, (e.len() + w.len()) as int));
    let ghost u4 = CHAPTERS_CLOSE.spec_bytes();
    let ghost whole = chapters_json(api_json@, id@);
    assert(whole == u0 + u1 + u2 + u3 + u4);
    proof {
        lemma_objects_under_len(api_json@, "mangaEpisode".spec_bytes());
        lemma_objects_under_len(api_json@, "mangaWords".spec_bytes());
        lemma_objects_under_len(api_json@, "mangaRolls".spec_bytes());
    }
    let mut c: usize = 0;
    if !put_str(payload, &mut c, ITEMS_OPEN) {
        proof {
            lemma_appended_fail_extend(d0, 0, u0, payload@, c as int, u1 + u2 + u3 + u4);
            assert(u0 + (u1 + u2 + u3 + u4) =~= whole);
        }
        return None;
    }
    let mut written: usize = 0;
    let ghost dm = payload@;
    let ghost cm = c as int;
    let ok = write_chapters_from_array(payload, &mut c, api_json, "mangaEpisode".as_bytes(), true, &mut written, id);
    proof {
        lemma_appended_then(d0, 0, u0, dm, cm, u1, payload@, c as int, ok);
    }
    if !ok {
        proof {
            lemma_appended_fail_extend(d0, 0, u0 + u1, payload@, c as int, u2 + u3 + u4);
            assert(u0 + u1 + (u2 + u3 + u4) =~= whole);
        }
        return None;
    }
    let ghost dm = payload@;
    let ghost cm = c as int;
    let ok = write_chapters_from_array(payload, &mut c, api_json, "mangaWords".as_bytes(), false, &mut written, id);
    proof {
        lemma_appended_then(d0, 0, u0 + u1, dm, cm, u2, payload@, c as int, ok);
    }
    if !ok {
        proof {
            lemma_appended_fail_extend(d0, 0, u0 + u1 + u2, payload@, c as int, u3 + u4);
            assert(u0 + u1 + u2 + (u3 + u4) =~= whole);
        }
        return None;
    }
    let ghost dm = payload@;
    let ghost cm = c as int;
    let ok = write_chapters_from_array(payload, &mut c, api_json, "mangaRolls".as_bytes(), false, &mut written, id);
    proof {
        lemma_appended_then(d0, 0, u0 + u1 + u2, dm, cm, u3, payload@, c as int, ok);
    }
    if !ok {
        proof {
            lemma_appended_fail_extend(d0, 0, u0 + u1 + u2 + u3, payload@, c as int, u4);
        }
        return None;
    }
    let ghost dm = payload@;
    let ghost cm = c as int;
    let ok = put_str(payload, &mut c, CHAPTERS_CLOSE);
    proof {
        lemma_appended_then(d0, 0, u0 + u1 + u2 + u3, dm, cm, u4, payload@, c as int, ok);
    }
    if !ok {
        return None;
    }
    assert(payload@.take(c as int) =~= whole);
    Some(c)
}

proof fn lemma_objects_from_len(data: Seq<u8>, pos: int)
    requires
        0 <= pos,
    ensures
        objects_from(data, pos).len() <= data.len() + 1 - pos || objects_from(data, pos).len() == 0,
    decreases data.len() + 2 - pos,
{
    let (o, p) = object_at_spec(data, pos, false);
    if o is Some && p > pos && p <= data.len() + 1 {
        lemma_objects_from_len(data, p);
    }
}

proof fn lemma_objects_under_len(data: Seq<u8>, key: Seq<u8>)
    ensures
        objects_under(data, key).len() <= data.len() + 1,
{
    match array_start_of(data, key) {
        None => {},
        Some(i) => {
            if i >= 0 {
                lemma_objects_from_len(data, i);
            }
        },
    }
}

pub const NO_PICTURE: &'static str = "http://mhfm5.tel.cdndm5.com/tag/category/nopic.jpg";

/// The cover of a detail reply: `mangaCoverimageUrl`, else (when missing
/// or the placeholder picture) `mangaPicimageUrl`, else `shareIcon`.
pub open spec fn detail_cover(api: Seq<u8>) -> Seq<u8> {
    let c0 = or_default(string_value_of(api, "mangaCoverimageUrl".spec_bytes()), Seq::empty());
    let c1 = if c0.len() == 0 || c0 == NO_PICTURE.spec_bytes() {
        or_default(string_value_of(api, "mangaPicimageUrl".spec_bytes()), c0)
    } else {
        c0
    };
    if c1.len() == 0 {
        or_default(string_value_of(api, "shareIcon".spec_bytes()), c1)
    } else {
        c1
    }
}

/// The cover object of a manga.
pub open spec fn cover_json(cover: Seq<u8>) -> Seq<u8> {
    if cover.len() == 0 {
        "{\"kind\":\"none\"}".spec_bytes()
    } else {
        "{\"kind\":\"url\",\"url\":\"".spec_bytes() + reescaped(cover) + "\"}".spec_bytes()
    }
}

/// The authors of a detail reply: its `mangaAuthor` string, else the
/// strings of its `mangaAuthors` array.
#[verifier::opaque]
pub open spec fn detail_authors(api: Seq<u8>) -> Seq<u8> {
    match string_value_of(api, "mangaAuthor".spec_bytes()) {
        Some(a) => quoted_item(a),
        None => joined(author_items(api, "mangaAuthors".spec_bytes())),
    }
}

/// Title, description and cover of a manga detail.
#[verifier::opaque]
pub open spec fn detail_front(api: Seq<u8>, id: Seq<u8>) -> Seq<u8> {
    let title = or_default(string_value_of(api, "mangaName".spec_bytes()), "Unknown".spec_bytes());
    let desc = or_default(string_value_of(api, "mangaIntro".spec_bytes()), Seq::empty());
    "{\"manga\":{\"id\":\"mhr:".spec_bytes() + escaped(id) + "\",\"title\":\"".spec_bytes() + reescaped(title)
        + "\",\"alternateTitles\":[],\"description\":\"".spec_bytes() + reescaped(desc) + "\",\"cover\":".spec_bytes()
        + cover_json(detail_cover(api))
}

pub const DETAIL_STATUS_TAIL: &'static str = "\",\"contentRating\":\"safe\",\"language\":\"zh\",\"tags\":[";

/// The links of a manga detail: the API's detail URL and the web page.
#[verifier::opaque]
pub open spec fn detail_links(id: Seq<u8>) -> Seq<u8> {
    "],\"links\":[{\"kind\":\"source\",\"url\":\"".spec_bytes() + escaped(crate::sources::manhuaren::API_BASE.spec_bytes())
        + "/v1/manga/getDetail?mangaId=".spec_bytes() + escaped(id)
        + "\"},{\"kind\":\"source\",\"url\":\"".spec_bytes() + escaped(crate::sources::manhuaren::WEB_BASE.spec_bytes())
        + "/manhua/".spec_bytes() + escaped(id) + "\"}]}}".spec_bytes()
}

/// The manga detail of manga `id` from its detail reply.
pub open spec fn detail_json(api: Seq<u8>, id: Seq<u8>) -> Seq<u8> {
    detail_front(api, id) + ",\"authors\":[".spec_bytes() + detail_authors(api) + detail_status(api)
        + detail_tags(api) + detail_links(id)
}

proof fn lemma_pieces_10(ps: Seq<Piece>)
    requires
        ps.len() == 10,
    ensures
        pieces_bytes(ps) == piece_bytes(ps[0]) + piece_bytes(ps[1]) + piece_bytes(ps[2]) + piece_bytes(
            ps[3],
        ) + piece_bytes(ps[4]) + piece_bytes(ps[5]) + piece_bytes(ps[6]) + piece_bytes(ps[7])
            + piece_bytes(ps[8]) + piece_bytes(ps[9]),
{
    lemma_pieces_9(ps.drop_last());
    assert(ps.drop_last()[0] == ps[0] && ps.drop_last()[8] == ps[8]);
}

fn write_detail_front(payload: &mut [u8], c: &mut usize, api: &[u8], id: &[u8]) -> (ok: bool)
    requires
        *old(c) <= old(payload)@.len(),
    ensures
        appended(old(payload)@, *old(c) as int, detail_front(api@, id@), final(payload)@, *final(c) as int, ok),
        final(payload)@.len() == old(payload)@.len(),
        *final(c) <= final(payload)@.len(),
{
    let title = match extract_json_string(api, "mangaName".as_bytes()) {
        Some(v) => v,
        None => "Unknown".as_bytes(),
    };
    let desc = match extract_json_string(api, "mangaIntro".as_bytes()) {
        Some(v) => v,
        None => "".as_bytes(),
    };
    let mut cover = match extract_json_string(api, "mangaCoverimageUrl".as_bytes()) {
        Some(v) => v,
        None => "".as_bytes(),
    };
    if cover.len() == 0 || same_bytes(cover, NO_PICTURE.as_bytes()) {
        cover = match extract_json_string(api, "mangaPicimageUrl".as_bytes()) {
            Some(v) => v,
            None => cover,
        };
    }
    if cover.len() == 0 {
        cover = match extract_json_string(api, "shareIcon".as_bytes()) {
            Some(v) => v,
            None => cover,
        };
    }
    let (c1, c2, c3) = if cover.len() == 0 {
        (Piece::Text("{\"kind\":\"none\"}"), Piece::Raw(cover), Piece::Text(""))
    } else {
        (Piece::Text("{\"kind\":\"url\",\"url\":\""), Piece::Reescaped(cover), Piece::Text("\"}"))
    };
    let ps = [
        Piece::Text("{\"manga\":{\"id\":\"mhr:"),
        Piece::Escaped(id),
        Piece::Text("\",\"title\":\""),
        Piece::Reescaped(title),
        Piece::Text("\",\"alternateTitles\":[],\"description\":\""),
        Piece::Reescaped(desc),
        Piece::Text("\",\"cover\":"),
        c1,
        c2,
        c3,
    ];
    proof {
        reveal(detail_front);
        reveal_strlit("");
        assert(cover@ == detail_cover(api@));
        lemma_pieces_10(ps@);
        assert(pieces_bytes(ps@) =~= detail_front(api@, id@));
    }
    put_pieces(payload, c, &ps)
}

fn write_detail_links(payload: &mut [u8], c: &mut usize, id: &[u8]) -> (ok: bool)
    requires
        *old(c) <= old(payload)@.len(),
    ensures
        appended(old(payload)@, *old(c) as int, detail_links(id@), final(payload)@, *final(c) as int, ok),
        final(payload)@.len() == old(payload)@.len(),
        *final(c) <= final(payload)@.len(),
{
    let ps = [
        Piece::Text("],\"links\":[{\"kind\":\"source\",\"url\":\""),
        Piece::Escaped(crate::sources::manhuaren::API_BASE.as_bytes()),
        Piece::Text("/v1/manga/getDetail?mangaId="),
        Piece::Escaped(id),
        Piece::Text("\"},{\"kind\":\"source\",\"url\":\""),
        Piece::Escaped(crate::sources::manhuaren::WEB_BASE.as_bytes()),
        Piece::Text("/manhua/"),
        Piece::Escaped(id),
        Piece::Text("\"}]}}"),
    ];
    proof {
        reveal(detail_links);
        lemma_pieces_9(ps@);
        assert(pieces_bytes(ps@) =~= detail_links(id@));
    }
    put_pieces(payload, c, &ps)
}

/// The authors' strings, when `mangaAuthor` is missing and a string of
/// the `mangaAuthors` array would run past the end of the text.
pub open spec fn detail_authors_overrun(api: Seq<u8>) -> bool {
    string_value_of(api, "mangaAuthor".spec_bytes()) is None && author_scan_overruns(
        api,
        "mangaAuthors".spec_bytes(),
    )
}

fn write_detail_authors(payload: &mut [u8], c: &mut usize, api: &[u8]) -> (ok: bool)
    requires
        *old(c) <= old(payload)@.len(),
        api@.len() < usize::MAX,
        !detail_authors_overrun(api@),
    ensures
        appended(old(payload)@, *old(c) as int, detail_authors(api@), final(payload)@, *final(c) as int, ok),
        final(payload)@.len() == old(payload)@.len(),
        *final(c) <= final(payload)@.len(),
{
    proof {
        reveal(detail_authors);
    }
    match extract_json_string(api, "mangaAuthor".as_bytes()) {
        Some(author) => {
            let ok = put_quoted(payload, c, true, author);
            proof {
                reveal_strlit("");
                assert(item_unit(false, quoted_item(author@)) =~= quoted_item(author@));
            }
            ok
        },
        None => write_author_array(payload, c, api, "mangaAuthors".as_bytes()),
    }
}

/// The status part of a manga detail.
#[verifier::opaque]
pub open spec fn detail_status(api: Seq<u8>) -> Seq<u8> {
    "],\"artists\":[],\"status\":\"".spec_bytes() + status_name(status_number(api)) + DETAIL_STATUS_TAIL.spec_bytes()
}

fn write_detail_status(payload: &mut [u8], c: &mut usize, api: &[u8]) -> (ok: bool)
    requires
        *old(c) <= old(payload)@.len(),
    ensures
        appended(old(payload)@, *old(c) as int, detail_status(api@), final(payload)@, *final(c) as int, ok),
        final(payload)@.len() == old(payload)@.len(),
        *final(c) <= final(payload)@.len(),
{
    let status_num = match extract_json_number(api, "mangaIsOver".as_bytes()) {
        Some(d) => parse_usize(d),
        None => 9,
    };
    let ps = [
        Piece::Text("],\"artists\":[],\"status\":\""),
        Piece::Raw(status_from_i32(status_num)),
        Piece::Text(DETAIL_STATUS_TAIL),
    ];
    proof {
        reveal(detail_status);
        reveal_with_fuel(pieces_bytes, 4);
        assert(status_num == status_number(api@));
        assert(pieces_bytes(ps@) =~= detail_status(api@));
    }
    put_pieces(payload, c, &ps)
}

/// The theme tags of a manga detail.
#[verifier::opaque]
pub open spec fn detail_tags(api: Seq<u8>) -> Seq<u8> {
    joined(tag_items(or_default(string_value_of(api, "mangaTheme".spec_bytes()), Seq::empty())))
}

fn write_detail_tags(payload: &mut [u8], c: &mut usize, api: &[u8]) -> (ok: bool)
    requires
        *old(c) <= old(payload)@.len(),
    ensures
        appended(old(payload)@, *old(c) as int, detail_tags(api@), final(payload)@, *final(c) as int, ok),
        final(payload)@.len() == old(payload)@.len(),
        *final(c) <= final(payload)@.len(),
{
    let theme = match extract_json_string(api, "mangaTheme".as_bytes()) {
        Some(v) => v,
        None => "".as_bytes(),
    };
    proof {
        reveal(detail_tags);
        reveal_strlit("");
    }
    write_tags(payload, c, theme)
}

/// Writes the manga detail of manga `id` from its detail reply; its
/// length, or `None` when it does not fit.
#[verifier::spinoff_prover]
pub fn detail_payload(api: &[u8], id: &[u8], payload: &mut [u8]) -> (r: Option<usize>)
    requires
        api@.len() < usize::MAX,
        !detail_authors_overrun(api@),
    ensures
        final(payload)@.len() == old(payload)@.len(),
        match r {
            Some(n) => n == detail_json(api@, id@).len() && final(payload)@.take(n as int) == detail_json(api@, id@),
            None => detail_json(api@, id@).len() > old(payload)@.len(),
        },
{
    let ghost d0 = payload@;
    let ghost u0 = detail_front(api@, id@);
    let ghost u1 = ",\"authors\":[".spec_bytes();
    let ghost u2 = detail_authors(api@);
    let ghost u3 = detail_status(api@);
    let ghost u4 = detail_tags(api@);
    let ghost u5 = detail_links(id@);
    let ghost whole = detail_json(api@, id@);
    assert(whole =~= u0 + u1 + u2 + u3 + u4 + u5);
    let mut c: usize = 0;
    if !write_detail_front(payload, &mut c, api, id) {
        proof {
            lemma_appended_fail_extend(d0, 0, u0, payload@, c as int, u1 + u2 + u3 + u4 + u5);
            assert(u0 + (u1 + u2 + u3 + u4 + u5) =~= whole);
        }
        return None;
    }
    let ghost dm = payload@;
    let ghost cm = c as int;
    let ok = put_str(payload, &mut c, ",\"authors\":[");
    proof {
        lemma_appended_then(d0, 0, u0, dm, cm, u1, payload@, c as int, ok);
    }
    if !ok {
        proof {
            lemma_appended_fail_extend(d0, 0, u0 + u1, payload@, c as int, u2 + u3 + u4 + u5);
            assert(u0 + u1 + (u2 + u3 + u4 + u5) =~= whole);
        }
        return None;
    }
    let ghost dm = payload@;
    let ghost cm = c as int;
    let ok = write_detail_authors(payload, &mut c, api);
    proof {
        lemma_appended_then(d0, 0, u0 + u1, dm, cm, u2, payload@, c as int, ok);
    }
    if !ok {
        proof {
            lemma_appended_fail_extend(d0, 0, u0 + u1 + u2, payload@, c as int, u3 + u4 + u5);
            assert(u0 + u1 + u2 + (u3 + u4 + u5) =~= whole);
        }
        return None;
    }
    let ghost dm = payload@;
    let ghost cm = c as int;
    let ok = write_detail_status(payload, &mut c, api);
    proof {
        lemma_appended_then(d0, 0, u0 + u1 + u2, dm, cm, u3, payload@, c as int, ok);
    }
    if !ok {
        proof {
            lemma_appended_fail_extend(d0, 0, u0 + u1 + u2 + u3, payload@, c as int, u4 + u5);
            assert(u0 + u1 + u2 + u3 + (u4 + u5) =~= whole);
        }
        return None;
    }
    let ghost dm = payload@;
    let ghost cm = c as int;
    let ok = write_detail_tags(payload, &mut c, api);
    proof {
        lemma_appended_then(d0, 0, u0 + u1 + u2 + u3, dm, cm, u4, payload@, c as int, ok);
    }
    if !ok {
        proof {
            lemma_appended_fail_extend(d0, 0, u0 + u1 + u2 + u3 + u4, payload@, c as int, u5);
        }
        return None;
    }
    let ghost dm = payload@;
    let ghost cm = c as int;
    let ok = write_detail_links(payload, &mut c, id);
    proof {
        lemma_appended_then(d0, 0, u0 + u1 + u2 + u3 + u4, dm, cm, u5, payload@, c as int, ok);
    }
    if !ok {
        return None;
    }
    assert(payload@.take(c as int) =~= whole);
    Some(c)
}

/// Whether a string of the array from `start` runs past the end of the
/// text.
fn strings_overrun(data: &[u8], start: usize) -> (r: bool)
    requires
        start <= data@.len() + 1,
        data@.len() < usize::MAX,
    ensures
        r == strings_from(data@, start as int).1,
{
    let ghost sep = author_sep_fn();
    let mut i = start;
    while i < data.len()
        invariant
            start <= i <= data@.len() + 1,
            data@.len() < usize::MAX,
            sep == author_sep_fn(),
            strings_from(data@, i as int).1 == strings_from(data@, start as int).1,
        decreases data@.len() + 1 - i,
    {
        let mut a = i;
        while a < data.len() && (data[a] == 32 || data[a] == 44 || data[a] == 10 || data[a] == 13)
            invariant
                i <= a <= data@.len(),
                sep == author_sep_fn(),
                skip_while(data@, i as int, sep) == skip_while(data@, a as int, sep),
            decreases data@.len() - a,
        {
            a = a + 1;
        }
        if a >= data.len() || data[a] != 34 {
            return false;
        }
        let mut e = a + 1;
        while e < data.len() && data[e] != 34
            invariant
                a + 1 <= e <= data@.len() + 1,
                data@.len() < usize::MAX,
                string_stop(data@, a + 1) == string_stop(data@, e as int),
            decreases data@.len() + 2 - e,
        {
            if data[e] == 92 {
                e = e + 2;
            } else {
                e = e + 1;
            }
        }
        proof {
            lemma_string_stop_bound(data@, a + 1);
        }
        if e > data.len() {
            return true;
        }
        if e == data.len() {
            return false;
        }
        i = e + 1;
    }
    false
}

/// Whether writing the authors of a detail reply would read past the end
/// of the text: the condition [`detail_payload`] rules out.
pub fn detail_authors_overrun_exec(api: &[u8]) -> (r: bool)
    requires
        api@.len() < usize::MAX,
    ensures
        r == detail_authors_overrun(api@),
{
    if extract_json_string(api, "mangaAuthor".as_bytes()).is_some() {
        return false;
    }
    match object_array_iter_start(api, "mangaAuthors".as_bytes()) {
        None => false,
        Some(i) => strings_overrun(api, i),
    }
}

/// The objects a list reply holds under `key_a`, or else under `key_b`.
pub open spec fn list_objects(api: Seq<u8>, key_a: Seq<u8>, key_b: Option<Seq<u8>>) -> Seq<Seq<u8>> {
    match array_start_of(api, key_a) {
        Some(i) => objects_from(api, i),
        None => match key_b {
            Some(k) => objects_under(api, k),
            None => Seq::empty(),
        },
    }
}

pub open spec fn manga_item_fn() -> spec_fn(Seq<u8>) -> Seq<u8> {
    |o: Seq<u8>| manga_item_json(o)
}

/// The items of a list page: those of the first `limit` objects.
pub open spec fn page_items(api: Seq<u8>, key_a: Seq<u8>, key_b: Option<Seq<u8>>, limit: nat) -> Seq<Seq<u8>> {
    let objs = list_objects(api, key_a, key_b);
    objs.take(if objs.len() < limit {
        objs.len() as int
    } else {
        limit as int
    }).map_values(manga_item_fn())
}

/// The items of a list page as the units they are written in.
pub open spec fn list_unit_items(api: Seq<u8>, key_a: Seq<u8>, key_b: Option<Seq<u8>>, limit: nat) -> Seq<Seq<Seq<u8>>> {
    let objs = list_objects(api, key_a, key_b);
    let n: nat = if objs.len() < limit {
        objs.len()
    } else {
        limit
    };
    listed(Seq::new(n, |k: int| manga_units(objs[k])))
}

pub open spec fn opt_bytes(o: Option<&[u8]>) -> Option<Seq<u8>> {
    match o {
        Some(b) => Some(b@),
        None => None,
    }
}

/// The end of a list page: the next cursor, and whether any item went
/// out.
pub open spec fn list_footer(written: int) -> Seq<u8> {
    "],\"page\":{\"nextCursor\":\"".spec_bytes() + decimal(crate::sources::manhuaren::PAGE_SIZE as nat)
        + "\",\"hasMore\":".spec_bytes() + if written == 0 {
        "false}}".spec_bytes()
    } else {
        "true}}".spec_bytes()
    }
}

/// Writes a manga item for each of the first `limit` objects of the list
/// reply (under `key_a`, else `key_b`), comma separated, stopping at the
/// first that does not fit; how many went out whole.
pub fn write_page_items(
    payload: &mut [u8],
    c: &mut usize,
    api: &[u8],
    key_a: &[u8],
    key_b: Option<&[u8]>,
    limit: usize,
) -> (r: (usize, bool))
    requires
        *old(c) <= old(payload)@.len(),
        api@.len() < usize::MAX,
    ensures
        appended(
            old(payload)@,
            *old(c) as int,
            joined(page_items(api@, key_a@, opt_bytes(key_b), limit as nat)),
            final(payload)@,
            *final(c) as int,
            r.1,
        ),
        r.1 == (r.0 == page_items(api@, key_a@, opt_bytes(key_b), limit as nat).len()),
        joined_written(page_items(api@, key_a@, opt_bytes(key_b), limit as nat), r.0 as int, *old(c) as int, *final(c) as int),
        wrote_units(
            old(payload)@,
            *old(c) as int,
            concat_units(list_unit_items(api@, key_a@, opt_bytes(key_b), limit as nat)),
            final(payload)@,
            *final(c) as int,
            r.1,
        ),
        r.0 == whole_items(list_unit_items(api@, key_a@, opt_bytes(key_b), limit as nat), old(payload)@.len() - *old(c)),
        final(payload)@.len() == old(payload)@.len(),
        *final(c) <= final(payload)@.len(),
{
    let ghost d0 = payload@;
    let ghost c0 = *c as int;
    let ghost items = page_items(api@, key_a@, opt_bytes(key_b), limit as nat);
    let ghost objs = list_objects(api@, key_a@, opt_bytes(key_b));
    let ghost xs = list_unit_items(api@, key_a@, opt_bytes(key_b), limit as nat);
    assert(xs.len() == items.len());
    let found = match ObjectArrayIter::new(api, key_a) {
        Some(it) => Some(it),
        None => match key_b {
            Some(k) => ObjectArrayIter::new(api, k),
            None => None,
        },
    };
    let mut iter = match found {
        Some(it) => it,
        None => {
            proof {
                assert(objs =~= Seq::<Seq<u8>>::empty());
                assert(items =~= Seq::<Seq<u8>>::empty());
                lemma_joined_empty(items);
                assert(items.take(0) =~= items);
                lemma_appended_start(d0, c0);
                lemma_units_empty(xs, d0, c0);
                assert(xs.take(0) =~= xs);
                lemma_whole_items_at(xs, d0.len() - c0, 0);
            }
            return (0, true);
        },
    };
    let ghost start = iter.pos as int;
    assert(objs == objects_from(api@, start));
    let mut count: usize = 0;
    proof {
        lemma_joined_empty(items);
        lemma_appended_start(d0, c0);
        lemma_units_empty(xs, d0, c0);
        assert(objs.take(0) + objs =~= objs);
    }
    loop
        invariant_except_break
            objs == objs.take(count as int) + objects_from(api@, iter.pos as int),
        invariant
            iter.wf(),
            iter.data == api,
            start <= iter.pos,
            d0 == old(payload)@,
            c0 == *old(c) as int,
            0 <= c0 <= d0.len(),
            payload@.len() == d0.len(),
            *c <= payload@.len(),
            objs == objects_from(api@, start),
            objs == list_objects(api@, key_a@, opt_bytes(key_b)),
            items == page_items(api@, key_a@, opt_bytes(key_b), limit as nat),
            count <= items.len(),
            count <= iter.pos - start,
            appended(d0, c0, joined(items.take(count as int)), payload@, *c as int, true),
            xs == list_unit_items(api@, key_a@, opt_bytes(key_b), limit as nat),
            xs.len() == items.len(),
            wrote_units(d0, c0, concat_units(xs.take(count as int)), payload@, *c as int, true),
        ensures
            count == items.len(),
            appended(d0, c0, joined(items), payload@, *c as int, true),
            wrote_units(d0, c0, concat_units(xs), payload@, *c as int, true),
        decreases api@.len() + 2 - iter.pos,
    {
        let ghost p0 = iter.pos as int;
        let obj = match iter.next_object() {
            Some(o) => o,
            None => {
                proof {
                    assert(objects_from(api@, p0) =~= Seq::<Seq<u8>>::empty());
                    assert(objs.take(count as int) =~= objs);
                    assert(items.take(count as int) =~= items);
                    assert(xs.take(count as int) =~= xs);
                }
                break;
            },
        };
        if count >= limit {
            proof {
                assert(items.take(count as int) =~= items);
                assert(xs.take(count as int) =~= xs);
            }
            break;
        }
        let ghost k = count as int;
        assert(objects_from(api@, p0) == seq![obj@] + objects_from(api@, iter.pos as int));
        assert(objs[k] == obj@) by {
            assert((objs.take(k) + objects_from(api@, p0))[k] == obj@);
        }
        assert(items[k] == manga_item_json(obj@));
        assert(xs[k] == item_units(k > 0, manga_units(obj@)));
        let ghost dm = payload@;
        let ghost cm = *c as int;
        let first = count == 0;
        let good = if first {
            write_manga_item(payload, c, obj)
        } else {
            let sep = put_str(payload, c, ",");
            if !sep {
                proof {
                    lemma_appended_fail_extend(dm, cm, ",".spec_bytes(), payload@, *c as int, manga_item_json(obj@));
                    lemma_wrote_fail_extend(dm, cm, seq![",".spec_bytes()], payload@, *c as int, manga_units(obj@));
                }
                false
            } else {
                let ghost dn = payload@;
                let ghost cn = *c as int;
                let ok = write_manga_item(payload, c, obj);
                proof {
                    lemma_appended_then(dm, cm, ",".spec_bytes(), dn, cn, manga_item_json(obj@), payload@, *c as int, ok);
                    lemma_wrote_then(dm, cm, seq![",".spec_bytes()], dn, cn, manga_units(obj@), payload@, *c as int, ok);
                }
                ok
            }
        };
        proof {
            assert(item_units(!first, manga_units(obj@)) =~= if first {
                manga_units(obj@)
            } else {
                seq![",".spec_bytes()] + manga_units(obj@)
            });
        }
        proof {
            reveal_strlit("");
            assert(item_unit(!first, manga_item_json(obj@)) =~= if first {
                manga_item_json(obj@)
            } else {
                ",".spec_bytes() + manga_item_json(obj@)
            });
        }
        if !good {
            proof {
                lemma_item_fail(items, k, d0, c0, dm, cm, payload@, *c as int);
                lemma_units_item_fail(xs, k, d0, c0, dm, cm, payload@, *c as int);
                assert(xs.take(k + 1).drop_last() =~= xs.take(k));
                crate::units::lemma_cat_concat(concat_units(xs.take(k)), xs[k]);
                crate::units::lemma_fitting_full(concat_units(xs.take(k)), d0.len() - c0);
                lemma_whole_items_at(xs, d0.len() - c0, k);
            }
            return (count, false);
        }
        proof {
            lemma_item_ok(items, k, d0, c0, dm, cm, payload@, *c as int);
            lemma_units_item_ok(xs, k, d0, c0, dm, cm, payload@, *c as int);
            assert(objs.take(k + 1) + objects_from(api@, iter.pos as int) =~= objs) by {
                assert(objs.take(k + 1) =~= objs.take(k).push(obj@));
            }
        }
        count = count + 1;
    }
    proof {
        lemma_whole_items_at(xs, d0.len() - c0, count as int);
    }
    (count, true)
}

/// The whole list page when everything fits.
pub open spec fn list_json(api: Seq<u8>, key_a: Seq<u8>, key_b: Option<Seq<u8>>) -> Seq<u8> {
    let items = page_items(api, key_a, key_b, crate::sources::manhuaren::PAGE_SIZE as nat);
    ITEMS_OPEN.spec_bytes() + joined(items) + list_footer(items.len() as int)
}

/// The list page written into `cap` bytes: its opening, the items up to
/// the first unit that does not fit, and the footer for how many went out
/// whole; none where the opening or the footer does not fit.
pub open spec fn list_page_answer(api: Seq<u8>, key_a: Seq<u8>, key_b: Option<Seq<u8>>, cap: nat) -> Option<Seq<u8>> {
    let xs = list_unit_items(api, key_a, key_b, crate::sources::manhuaren::PAGE_SIZE as nat);
    let w = whole_items(xs, cap - ITEMS_OPEN.spec_bytes().len());
    list_written(ITEMS_OPEN.spec_bytes(), concat_units(xs), list_footer(w as int), cap as int)
}

/// Writes a list page of the API's reply: a manga item for each of the
/// first [`PAGE_SIZE`] objects under `key_a` (else `key_b`), then the page
/// footer, which says whether any item went out. Where the items do not
/// all fit, the footer is still written after those that went out, and
/// the payload is whatever then fits; `None` when the opening or the
/// footer does not fit.
pub fn list_payload(api: &[u8], key_a: &[u8], key_b: Option<&[u8]>, payload: &mut [u8]) -> (r: Option<usize>)
    requires
        api@.len() < usize::MAX,
    ensures
        final(payload)@.len() == old(payload)@.len(),
        list_json(api@, key_a@, opt_bytes(key_b)).len() <= old(payload)@.len() ==> r == Some(
            list_json(api@, key_a@, opt_bytes(key_b)).len() as usize,
        ) && final(payload)@.take(list_json(api@, key_a@, opt_bytes(key_b)).len() as int) == list_json(
            api@,
            key_a@,
            opt_bytes(key_b),
        ),
        match r {
            Some(n) => n <= old(payload)@.len() && list_page_answer(api@, key_a@, opt_bytes(key_b), old(payload)@.len())
                == Some(final(payload)@.take(n as int)),
            None => list_json(api@, key_a@, opt_bytes(key_b)).len() > old(payload)@.len() && list_page_answer(
                api@,
                key_a@,
                opt_bytes(key_b),
                old(payload)@.len(),
            ) is None,
        },
{
    let ghost d0 = payload@;
    let ghost items = page_items(api@, key_a@, opt_bytes(key_b), crate::sources::manhuaren::PAGE_SIZE as nat);
    let ghost xs = list_unit_items(api@, key_a@, opt_bytes(key_b), crate::sources::manhuaren::PAGE_SIZE as nat);
    let ghost w = whole_items(xs, d0.len() - ITEMS_OPEN.spec_bytes().len());
    let mut c: usize = 0;
    if !put_str(payload, &mut c, ITEMS_OPEN) {
        proof {
            lemma_list_head_fail(d0, ITEMS_OPEN.spec_bytes(), payload@, c as int, concat_units(xs), list_footer(w as int));
        }
        return None;
    }
    let ghost dh = payload@;
    let ghost ch = c as int;
    let (written, complete) = write_page_items(payload, &mut c, api, key_a, key_b, crate::sources::manhuaren::PAGE_SIZE);
    let ghost dc = payload@;
    let ghost cc = c as int;
    let ps = [
        Piece::Text("],\"page\":{\"nextCursor\":\""),
        Piece::Number(crate::sources::manhuaren::PAGE_SIZE),
        Piece::Text("\",\"hasMore\":"),
        Piece::Text(if written == 0 { "false}}" } else { "true}}" }),
    ];
    proof {
        reveal_with_fuel(pieces_bytes, 5);
        assert(pieces_bytes(ps@) =~= list_footer(written as int));
        assert(written == w);
    }
    let okf = put_pieces(payload, &mut c, &ps);
    proof {
        lemma_list_written(d0, ITEMS_OPEN.spec_bytes(), dh, ch, concat_units(xs), dc, cc, complete, list_footer(w as int), payload@, c as int, okf);
    }
    if !okf {
        proof {
            if written == items.len() {
                assert(cc == ch + joined(items).len());
            } else {
                crate::pieces::lemma_joined_prefix(items, written as int + 1);
                crate::pieces::lemma_joined_prefix(items, written as int);
            }
        }
        return None;
    }
    proof {
        lemma_list_text(items, written as int, ITEMS_OPEN.spec_bytes(), list_footer(written as int), d0, dh, ch, dc, cc, payload@, c as int);
        if list_json(api@, key_a@, opt_bytes(key_b)).len() <= d0.len() {
            if written < items.len() {
                assert(cc < ch + joined(items).len());
                assert(false);
            }
        }
    }
    Some(c)
}

/// The API answered with an error object.
pub fn response_has_error(api: &[u8]) -> (r: bool)
    ensures
        r == crate::json_utils::find(api@, "\"errorResponse\"".spec_bytes()) is Some,
{
    crate::json_utils::contains_bytes(api, "\"errorResponse\"".as_bytes())
}

/// The items of a home section: those of the first ten `mangas`.
pub open spec fn section_items(api: Seq<u8>) -> Seq<Seq<u8>> {
    page_items(api, "mangas".spec_bytes(), None, 10)
}

/// Writes the items of a home section from a list reply: a manga item for
/// each of the first ten `mangas`, comma separated; `false` when they do
/// not all fit.
pub fn write_section_items(payload: &mut [u8], c: &mut usize, api: &[u8]) -> (ok: bool)
    requires
        *old(c) <= old(payload)@.len(),
        api@.len() < usize::MAX,
    ensures
        appended(old(payload)@, *old(c) as int, joined(section_items(api@)), final(payload)@, *final(c) as int, ok),
        final(payload)@.len() == old(payload)@.len(),
        *final(c) <= final(payload)@.len(),
{
    let (_, complete) = write_page_items(payload, c, api, "mangas".as_bytes(), None, 10);
    complete
}

/// Whether a string of the array stored under `key` runs past the end of
/// the text.
pub fn string_array_overruns(data: &[u8], key: &[u8]) -> (r: bool)
    requires
        data@.len() < usize::MAX,
    ensures
        r == author_scan_overruns(data@, key@),
{
    match object_array_iter_start(data, key) {
        None => false,
        Some(i) => strings_overrun(data, i),
    }
}

/// A page of a chapter: its number `k` and the image URL made of the
/// host, the path and the query, their escapes read and written anew.
pub open spec fn page_item(id: Seq<u8>, k: nat, host: Seq<u8>, path: Seq<u8>, query: Seq<u8>) -> Seq<u8> {
    "{\"id\":\"page:".spec_bytes() + escaped(id) + ":".spec_bytes() + decimal(k) + "\",\"index\":".spec_bytes()
        + decimal(k) + ",\"image\":{\"kind\":\"url\",\"url\":\"".spec_bytes() + reescaped(host) + reescaped(path)
        + reescaped(query) + "\"}}".spec_bytes()
}

/// The units page `k` of chapter `id` is written in.
pub open spec fn page_item_units(id: Seq<u8>, k: nat, host: Seq<u8>, path: Seq<u8>, query: Seq<u8>) -> Seq<Seq<u8>> {
    seq!["{\"id\":\"page:".spec_bytes()] + crate::units::byte_units(id, crate::json_utils::escape_fn()) + seq![
        ":".spec_bytes(),
        decimal(k),
        "\",\"index\":".spec_bytes(),
        decimal(k),
        ",\"image\":{\"kind\":\"url\",\"url\":\"".spec_bytes(),
    ] + crate::json_utils::reescape_units_from(host, 0) + crate::json_utils::reescape_units_from(path, 0)
        + crate::json_utils::reescape_units_from(query, 0) + seq!["\"}}".spec_bytes()]
}

/// The image host of a read reply: the first string of `hostList`.
pub open spec fn image_host(api: Seq<u8>) -> Seq<u8> {
    or_default(first_string_of(api, "hostList".spec_bytes()), Seq::empty())
}

/// The query every image URL of a read reply ends with.
pub open spec fn image_query(api: Seq<u8>) -> Seq<u8> {
    or_default(string_value_of(api, "query".spec_bytes()), Seq::empty())
}

/// The pages of chapter `id` from its read reply.
pub open spec fn image_items(api: Seq<u8>, id: Seq<u8>) -> Seq<Seq<u8>> {
    let paths = match array_start_of(api, "mangaSectionImages".spec_bytes()) {
        Some(i) => strings_from(api, i).0,
        None => Seq::empty(),
    };
    Seq::new(paths.len(), |k: int| page_item(id, k as nat, image_host(api), paths[k], image_query(api)))
}

pub const PAGES_CLOSE: &'static str = "]}";

/// The pages of chapter `id` as the units they are written in.
pub open spec fn image_unit_items(api: Seq<u8>, id: Seq<u8>) -> Seq<Seq<Seq<u8>>> {
    let paths = match array_start_of(api, "mangaSectionImages".spec_bytes()) {
        Some(i) => strings_from(api, i).0,
        None => Seq::empty(),
    };
    listed(Seq::new(paths.len(), |k: int| page_item_units(id, k as nat, image_host(api), paths[k], image_query(api))))
}

/// The page list of chapter `id` written into `cap` bytes: its opening,
/// the pages up to the first unit that does not fit, and its closing.
pub open spec fn pages_answer(api: Seq<u8>, id: Seq<u8>, cap: nat) -> Option<Seq<u8>> {
    list_written(
        "{\"chapterId\":\"".spec_bytes() + escaped(id) + "\",\"pages\":[".spec_bytes(),
        concat_units(image_unit_items(api, id)),
        PAGES_CLOSE.spec_bytes(),
        cap as int,
    )
}



/// The page list of chapter `id` when everything fits.
pub open spec fn pages_json(api: Seq<u8>, id: Seq<u8>) -> Seq<u8> {
    "{\"chapterId\":\"".spec_bytes() + escaped(id) + "\",\"pages\":[".spec_bytes() + joined(image_items(api, id))
        + PAGES_CLOSE.spec_bytes()
}

fn put_page_item(
    payload: &mut [u8],
    c: &mut usize,
    first: bool,
    id: &[u8],
    k: usize,
    host: &[u8],
    path: &[u8],
    query: &[u8],
) -> (ok: bool)
    requires
        *old(c) <= old(payload)@.len(),
    ensures
        appended(
            old(payload)@,
            *old(c) as int,
            item_unit(!first, page_item(id@, k as nat, host@, path@, query@)),
            final(payload)@,
            *final(c) as int,
            ok,
        ),
        wrote_units(
            old(payload)@,
            *old(c) as int,
            item_units(!first, page_item_units(id@, k as nat, host@, path@, query@)),
            final(payload)@,
            *final(c) as int,
            ok,
        ),
        final(payload)@.len() == old(payload)@.len(),
        *final(c) <= final(payload)@.len(),
{
    let ps = [
        Piece::Text("{\"id\":\"page:"),
        Piece::Escaped(id),
        Piece::Text(":"),
        Piece::Number(k),
        Piece::Text("\",\"index\":"),
        Piece::Number(k),
        Piece::Text(",\"image\":{\"kind\":\"url\",\"url\":\""),
        Piece::Reescaped(host),
        Piece::Reescaped(path),
        Piece::Reescaped(query),
        Piece::Text("\"}}"),
    ];
    proof {
        reveal_with_fuel(pieces_bytes, 12);
        assert(pieces_bytes(ps@) =~= page_item(id@, k as nat, host@, path@, query@));
        reveal_with_fuel(pieces_units, 12);
        assert(pieces_units(ps@) =~= page_item_units(id@, k as nat, host@, path@, query@));
    }
    put_item(payload, c, first, &ps)
}

/// Writes a page for each image path of the array from `start`, comma
/// separated, stopping at the first that does not fit; how many went out
/// whole, and whether all did.
fn write_image_items(
    payload: &mut [u8],
    c: &mut usize,
    api: &[u8],
    id: &[u8],
    host: &[u8],
    query: &[u8],
    start: usize,
) -> (r: (usize, bool))
    requires
        *old(c) <= old(payload)@.len(),
        api@.len() < usize::MAX,
        start <= api@.len() + 1,
        array_start_of(api@, "mangaSectionImages".spec_bytes()) == Some(start as int),
        !strings_from(api@, start as int).1,
        host@ == image_host(api@),
        query@ == image_query(api@),
    ensures
        appended(old(payload)@, *old(c) as int, joined(image_items(api@, id@)), final(payload)@, *final(c) as int, r.1),
        r.1 == (r.0 == image_items(api@, id@).len()),
        joined_written(image_items(api@, id@), r.0 as int, *old(c) as int, *final(c) as int),
        wrote_units(old(payload)@, *old(c) as int, concat_units(image_unit_items(api@, id@)), final(payload)@, *final(c) as int, r.1),
        final(payload)@.len() == old(payload)@.len(),
        *final(c) <= final(payload)@.len(),
{
    let ghost d0 = payload@;
    let ghost c0 = *c as int;
    let ghost all = strings_from(api@, start as int).0;
    let ghost items = image_items(api@, id@);
    let ghost xs = image_unit_items(api@, id@);
    let ghost sep = author_sep_fn();
    let mut i: usize = start;
    let mut count: usize = 0;
    let mut stop = false;
    proof {
        lemma_joined_empty(items);
        lemma_units_empty(xs, d0, c0);
        lemma_appended_start(d0, c0);
        assert(all.take(0) + strings_from(api@, start as int).0 =~= all);
    }
    while !stop && i < api.len()
        invariant
            stop ==> strings_from(api@, i as int).0 =~= Seq::<Seq<u8>>::empty(),
            items == image_items(api@, id@),
            array_start_of(api@, "mangaSectionImages".spec_bytes()) == Some(start as int),
            host@ == image_host(api@),
            query@ == image_query(api@),
            start <= i <= api@.len() + 1,
            api@.len() < usize::MAX,
            d0 == old(payload)@,
            c0 == *old(c) as int,
            0 <= c0 <= d0.len(),
            payload@.len() == d0.len(),
            *c <= payload@.len(),
            all == strings_from(api@, start as int).0,
            !strings_from(api@, start as int).1,
            strings_from(api@, i as int).1 == strings_from(api@, start as int).1,
            items.len() == all.len(),
            sep == author_sep_fn(),
            count <= all.len(),
            count <= i,
            all == all.take(count as int) + strings_from(api@, i as int).0,
            appended(d0, c0, joined(items.take(count as int)), payload@, *c as int, true),
            xs == image_unit_items(api@, id@),
            xs.len() == all.len(),
            wrote_units(d0, c0, concat_units(xs.take(count as int)), payload@, *c as int, true),
        decreases api@.len() + 1 - i, if stop { 0int } else { 1int },
    {
        let mut a = i;
        while a < api.len() && (api[a] == 32 || api[a] == 44 || api[a] == 10 || api[a] == 13)
            invariant
                i <= a <= api@.len(),
                sep == author_sep_fn(),
                skip_while(api@, i as int, sep) == skip_while(api@, a as int, sep),
            decreases api@.len() - a,
        {
            a = a + 1;
        }
        if a >= api.len() || api[a] != 34 {
            stop = true;
            continue;
        }
        let mut e = a + 1;
        while e < api.len() && api[e] != 34
            invariant
                a + 1 <= e <= api@.len() + 1,
                api@.len() < usize::MAX,
                string_stop(api@, a + 1) == string_stop(api@, e as int),
            decreases api@.len() + 2 - e,
        {
            if api[e] == 92 {
                e = e + 2;
            } else {
                e = e + 1;
            }
        }
        proof {
            lemma_string_stop_bound(api@, a + 1);
        }
        let ghost t = api@.subrange(a + 1, e as int);
        assert(strings_from(api@, i as int).0 == seq![t] + strings_from(api@, e + 1).0) by {
            if e == api.len() {
                assert(strings_from(api@, e + 1).0 =~= Seq::<Seq<u8>>::empty());
                assert(seq![t] + Seq::<Seq<u8>>::empty() =~= seq![t]);
            }
        }
        assert(all[count as int] == t) by {
            assert((all.take(count as int) + strings_from(api@, i as int).0)[count as int] == t);
        }
        assert(items[count as int] == page_item(id@, count as nat, host@, t, query@));
        assert(xs[count as int] == item_units(count > 0, page_item_units(id@, count as nat, host@, t, query@)));
        let ghost dm = payload@;
        let ghost cm = *c as int;
        let good = put_page_item(payload, c, count == 0, id, count, host, slice_subrange(api, a + 1, e), query);
        if !good {
            proof {
                lemma_item_fail(items, count as int, d0, c0, dm, cm, payload@, *c as int);
                lemma_units_item_fail(xs, count as int, d0, c0, dm, cm, payload@, *c as int);
            }
            return (count, false);
        }
        proof {
            lemma_item_ok(items, count as int, d0, c0, dm, cm, payload@, *c as int);
            lemma_units_item_ok(xs, count as int, d0, c0, dm, cm, payload@, *c as int);
            assert(all.take(count + 1) + strings_from(api@, e + 1).0 =~= all) by {
                assert(all.take(count + 1) =~= all.take(count as int).push(t));
            }
        }
        count = count + 1;
        i = e + 1;
    }
    proof {
        assert(strings_from(api@, i as int).0 =~= Seq::<Seq<u8>>::empty());
        assert(all.take(count as int) =~= all);
        assert(items.take(count as int) =~= items);
        assert(xs.take(count as int) =~= xs);
    }
    (count, true)
}

/// Writes the page list of chapter `id` from its read reply: one page per
/// image path, its URL the host, the path and the query. Where the pages
/// do not all fit, the list is still closed after those that went out, if
/// that fits. `Missing` without an image array; `Overflow` when the
/// opening or the closing does not fit.
pub fn pages_payload(api: &[u8], id: &[u8], payload: &mut [u8]) -> (r: Outcome)
    requires
        api@.len() < usize::MAX,
        !author_scan_overruns(api@, "mangaSectionImages".spec_bytes()),
    ensures
        final(payload)@.len() == old(payload)@.len(),
        (r == Outcome::Missing) == (array_start_of(api@, "mangaSectionImages".spec_bytes()) is None),
        !(r is Broken),
        array_start_of(api@, "mangaSectionImages".spec_bytes()) is Some && pages_json(api@, id@).len()
            <= old(payload)@.len() ==> r == Outcome::Done(pages_json(api@, id@).len() as usize)
            && final(payload)@.take(pages_json(api@, id@).len() as int) == pages_json(api@, id@),
        r == Outcome::Overflow ==> pages_json(api@, id@).len() > old(payload)@.len(),
        array_start_of(api@, "mangaSectionImages".spec_bytes()) is Some ==> match r {
            Outcome::Done(n) => n <= old(payload)@.len() && pages_answer(api@, id@, old(payload)@.len()) == Some(
                final(payload)@.take(n as int),
            ),
            Outcome::Overflow => pages_answer(api@, id@, old(payload)@.len()) is None,
            _ => false,
        },
{
    let ghost d0 = payload@;
    let ghost items = image_items(api@, id@);
    let host = match first_string_in_array(api, "hostList".as_bytes()) {
        Some(v) => v,
        None => "".as_bytes(),
    };
    let query = match extract_json_string(api, "query".as_bytes()) {
        Some(v) => v,
        None => "".as_bytes(),
    };
    proof {
        reveal_strlit("");
    }
    let start = match object_array_iter_start(api, "mangaSectionImages".as_bytes()) {
        Some(v) => v,
        None => return Outcome::Missing,
    };
    let head = [Piece::Text("{\"chapterId\":\""), Piece::Escaped(id), Piece::Text("\",\"pages\":[")];
    let ghost h = "{\"chapterId\":\"".spec_bytes() + escaped(id@) + "\",\"pages\":[".spec_bytes();
    proof {
        reveal_with_fuel(pieces_bytes, 4);
        assert(pieces_bytes(head@) =~= h);
    }
    let mut c: usize = 0;
    if !put_pieces(payload, &mut c, &head) {
        proof {
            assert(pages_json(api@, id@) =~= h + (joined(items) + PAGES_CLOSE.spec_bytes()));
            lemma_list_head_fail(d0, h, payload@, c as int, concat_units(image_unit_items(api@, id@)), PAGES_CLOSE.spec_bytes());
        }
        return Outcome::Overflow;
    }
    let ghost dh = payload@;
    let ghost ch = c as int;
    let (written, _) = write_image_items(payload, &mut c, api, id, host, query, start);
    let ghost dc = payload@;
    let ghost cc = c as int;
    let okf = put_str(payload, &mut c, PAGES_CLOSE);
    proof {
        lemma_list_written(
            d0,
            h,
            dh,
            ch,
            concat_units(image_unit_items(api@, id@)),
            dc,
            cc,
            written == items.len(),
            PAGES_CLOSE.spec_bytes(),
            payload@,
            c as int,
            okf,
        );
    }
    if !okf {
        proof {
            if written == items.len() {
                assert(cc == ch + joined(items).len());
            } else {
                crate::pieces::lemma_joined_prefix(items, written as int + 1);
                crate::pieces::lemma_joined_prefix(items, written as int);
            }
        }
        return Outcome::Overflow;
    }
    proof {
        lemma_list_text(items, written as int, h, PAGES_CLOSE.spec_bytes(), d0, dh, ch, dc, cc, payload@, c as int);
        if pages_json(api@, id@).len() <= d0.len() {
            if written < items.len() {
                assert(cc < ch + joined(items).len());
                assert(false);
            }
        }
    }
    Outcome::Done(c)
}

pub const IMAGE_HEADERS: &'static str =
    "\",\"headers\":{\"Referer\":\"http://www.dm5.com/dm5api/\",\"User-Agent\":\"Dalvik/2.1.0 (Linux; U; Android 13; Koma Build/Koma)\"}}";

/// The image URL of an image request: its `url`, else its `imageUrl`.
pub open spec fn image_url_of(req: Seq<u8>) -> Seq<u8> {
    match crate::json_utils::json_string_value(req, "url".spec_bytes()) {
        Some(u) => u,
        None => or_default(crate::json_utils::json_string_value(req, "imageUrl".spec_bytes()), Seq::empty()),
    }
}

/// The request the host is to fetch an image with.
pub open spec fn image_request_json(url: Seq<u8>) -> Seq<u8> {
    "{\"url\":\"".spec_bytes() + reescaped(url) + IMAGE_HEADERS.spec_bytes()
}

/// Writes how the host is to fetch the image of an image request:
/// `Missing` without a URL, `Overflow` when it does not fit.
pub fn image_request_payload(req: &[u8], payload: &mut [u8]) -> (r: Outcome)
    ensures
        final(payload)@.len() == old(payload)@.len(),
        image_url_of(req@).len() == 0 ==> r == Outcome::Missing,
        image_url_of(req@).len() > 0 ==> if image_request_json(image_url_of(req@)).len() <= old(payload)@.len() {
            r == Outcome::Done(image_request_json(image_url_of(req@)).len() as usize) && final(payload)@.take(
                image_request_json(image_url_of(req@)).len() as int,
            ) == image_request_json(image_url_of(req@))
        } else {
            r == Outcome::Overflow
        },
{
    let url = match crate::json_utils::extract_json_string(req, "url".as_bytes()) {
        Some(u) => u,
        None => match crate::json_utils::extract_json_string(req, "imageUrl".as_bytes()) {
            Some(u) => u,
            None => "".as_bytes(),
        },
    };
    proof {
        reveal_strlit("");
    }
    if url.len() == 0 {
        return Outcome::Missing;
    }
    let ps = [Piece::Text("{\"url\":\""), Piece::Reescaped(url), Piece::Text(IMAGE_HEADERS)];
    proof {
        reveal_with_fuel(pieces_bytes, 4);
        assert(pieces_bytes(ps@) =~= image_request_json(url@));
    }
    let mut c: usize = 0;
    if !put_pieces(payload, &mut c, &ps) {
        return Outcome::Overflow;
    }
    assert(payload@.take(c as int) =~= image_request_json(url@));
    Outcome::Done(c)
}

/// What an escape letter in the reply's body text stands for.
pub open spec fn body_unescape(b: u8) -> u8 {
    if b == 110 {
        10
    } else if b == 114 {
        13
    } else if b == 116 {
        9
    } else {
        b
    }
}

/// How reading body text from `i` into `cap` bytes ends.
pub enum BodyScan {
    /// The text read, up to its closing quote or the end of the reply.
    Text(Seq<u8>),
    /// A plain byte found no room.
    Full,
    /// An escape found no room.
    EscapeFull,
}

/// Reads body text from `i`, after `acc`: an escape gives the byte it
/// stands for, a quote ends the text, as does the end of the reply.
pub open spec fn scan_body(resp: Seq<u8>, i: int, cap: nat, acc: Seq<u8>) -> BodyScan
    decreases resp.len() - i,
{
    if i < 0 || i >= resp.len() {
        BodyScan::Text(acc)
    } else if resp[i] == 92 && i + 1 < resp.len() {
        if acc.len() >= cap {
            BodyScan::EscapeFull
        } else {
            scan_body(resp, i + 2, cap, acc.push(body_unescape(resp[i + 1])))
        }
    } else if resp[i] == 34 {
        BodyScan::Text(acc)
    } else if acc.len() >= cap {
        BodyScan::Full
    } else {
        scan_body(resp, i + 1, cap, acc.push(resp[i]))
    }
}

/// How decoding a reply's body text ended.
pub enum ReplyBody {
    /// The text's length.
    Body(usize),
    /// The reply stands for this failure.
    Failed(crate::fetch::FetchError),
    /// An escape found no room in the buffer.
    Broken,
}

/// What reading the body text of a reply that has passed its check
/// gives for a buffer of `cap` bytes.
pub open spec fn body_of(resp: Seq<u8>, cap: nat) -> Option<BodyScan> {
    match crate::json_utils::find(resp, crate::fetch::BODY_MARKER.spec_bytes()) {
        None => None,
        Some(p) => Some(scan_body(resp, p + crate::fetch::BODY_MARKER.spec_bytes().len(), cap, Seq::empty())),
    }
}

/// Reads the body text of a reply into `out` from its `bodyText` marker.
fn read_body_text(resp: &[u8], out: &mut [u8]) -> (r: ReplyBody)
    ensures
        final(out)@.len() == old(out)@.len(),
        match body_of(resp@, old(out)@.len()) {
            None => r == ReplyBody::Failed(crate::fetch::FetchError::Network),
            Some(BodyScan::Text(t)) => r matches ReplyBody::Body(n) && n == t.len() && final(out)@.take(n as int) == t,
            Some(BodyScan::Full) => r == ReplyBody::Failed(crate::fetch::FetchError::Network),
            Some(BodyScan::EscapeFull) => r == ReplyBody::Broken,
        },
{
    let marker = crate::fetch::BODY_MARKER.as_bytes();
    let p = match crate::json_utils::find_subslice(resp, marker) {
        Some(p) => p,
        None => return ReplyBody::Failed(crate::fetch::FetchError::Network),
    };
    let ghost cap = out@.len();
    assert(p + marker@.len() <= resp@.len());
    assert(resp@.len() == resp.len());
    let mut i = p + marker.len();
    let mut c: usize = 0;
    let ghost start = i as int;
    assert(out@.take(0) =~= Seq::<u8>::empty());
    while i < resp.len()
        invariant
            start <= i <= resp@.len() + 1,
            c <= out@.len(),
            out@.len() == cap,
            cap == old(out)@.len(),
            body_of(resp@, cap) == Some(scan_body(resp@, start, cap, Seq::empty())),
            scan_body(resp@, start, cap, Seq::empty()) == scan_body(resp@, i as int, cap, out@.take(c as int)),
        decreases resp@.len() + 1 - i,
    {
        let b = resp[i];
        if b == 92 && resp.len() - i > 1 {
            if c >= out.len() {
                return ReplyBody::Broken;
            }
            let next = resp[i + 1];
            let v: u8 = if next == 110 {
                10
            } else if next == 114 {
                13
            } else if next == 116 {
                9
            } else {
                next
            };
            let ghost before = out@.take(c as int);
            out[c] = v;
            assert(out@.take(c + 1) =~= before.push(v));
            c = c + 1;
            i = i + 2;
            continue;
        }
        if b == 34 {
            return ReplyBody::Body(c);
        }
        if c >= out.len() {
            return ReplyBody::Failed(crate::fetch::FetchError::Network);
        }
        let ghost before = out@.take(c as int);
        out[c] = b;
        assert(out@.take(c + 1) =~= before.push(b));
        c = c + 1;
        i = i + 1;
    }
    ReplyBody::Body(c)
}

/// What the API's reply to a read amounts to: an error object is a client
/// error; otherwise its body text.
pub open spec fn api_reply(resp: Seq<u8>, cap: nat) -> Option<BodyScan> {
    if crate::json_utils::find(resp, "\"errorResponse\"".spec_bytes()) is Some {
        None
    } else {
        body_of(resp, cap)
    }
}

/// Decodes the body text of the API's reply into `out`: a client error
/// when the reply holds an error object, a network error without body
/// text or when the text does not fit; `Broken` when an escape finds no
/// room.
pub fn decode_api_reply(resp: &[u8], out: &mut [u8]) -> (r: ReplyBody)
    ensures
        final(out)@.len() == old(out)@.len(),
        crate::json_utils::find(resp@, "\"errorResponse\"".spec_bytes()) is Some ==> r == ReplyBody::Failed(
            crate::fetch::FetchError::ClientError,
        ),
        crate::json_utils::find(resp@, "\"errorResponse\"".spec_bytes()) is None ==> match body_of(resp@, old(out)@.len()) {
            None => r == ReplyBody::Failed(crate::fetch::FetchError::Network),
            Some(BodyScan::Text(t)) => r matches ReplyBody::Body(n) && n == t.len() && final(out)@.take(n as int) == t,
            Some(BodyScan::Full) => r == ReplyBody::Failed(crate::fetch::FetchError::Network),
            Some(BodyScan::EscapeFull) => r == ReplyBody::Broken,
        },
{
    if response_has_error(resp) {
        return ReplyBody::Failed(crate::fetch::FetchError::ClientError);
    }
    read_body_text(resp, out)
}

/// Decodes the body text of the reply to a sign-up: a network error unless
/// the host's reply says `"ok":true`, or without body text, or when the
/// text does not fit; `Broken` when an escape finds no room.
pub fn decode_ok_reply(resp: &[u8], out: &mut [u8]) -> (r: ReplyBody)
    ensures
        final(out)@.len() == old(out)@.len(),
        crate::json_utils::find(resp@, crate::fetch::OK_MARKER.spec_bytes()) is None ==> r == ReplyBody::Failed(
            crate::fetch::FetchError::Network,
        ),
        crate::json_utils::find(resp@, crate::fetch::OK_MARKER.spec_bytes()) is Some ==> match body_of(resp@, old(out)@.len()) {
            None => r == ReplyBody::Failed(crate::fetch::FetchError::Network),
            Some(BodyScan::Text(t)) => r matches ReplyBody::Body(n) && n == t.len() && final(out)@.take(n as int) == t,
            Some(BodyScan::Full) => r == ReplyBody::Failed(crate::fetch::FetchError::Network),
            Some(BodyScan::EscapeFull) => r == ReplyBody::Broken,
        },
{
    if !crate::json_utils::contains_bytes(resp, crate::fetch::OK_MARKER.as_bytes()) {
        return ReplyBody::Failed(crate::fetch::FetchError::Network);
    }
    read_body_text(resp, out)
}

/// The credentials of an anonymous user from the sign-up reply: its user
/// id, and the token `scheme parameter`.
pub open spec fn anony_credentials(api: Seq<u8>) -> Option<(Seq<u8>, Seq<u8>)> {
    match (
        crate::json_utils::json_number_value(api, "userId".spec_bytes()),
        crate::json_utils::json_string_value(api, "scheme".spec_bytes()),
        crate::json_utils::json_string_value(api, "parameter".spec_bytes()),
    ) {
        (Some(uid), Some(scheme), Some(parameter)) => Some((uid, scheme + " ".spec_bytes() + parameter)),
        _ => None,
    }
}

/// The credentials of an anonymous user from the sign-up reply, the token
/// written to `token`: a client error when the reply holds an error object;
/// a network error when a part is missing, the token does not fit, or the
/// id is longer than 32 bytes or the token than 2048.
pub fn read_anony_credentials<'a>(api: &'a [u8], token: &mut [u8]) -> (r: Result<(&'a [u8], usize), crate::fetch::FetchError>)
    ensures
        final(token)@.len() == old(token)@.len(),
        crate::json_utils::find(api@, "\"errorResponse\"".spec_bytes()) is Some ==> r == Err::<(&'a [u8], usize), crate::fetch::FetchError>(
            crate::fetch::FetchError::ClientError,
        ),
        crate::json_utils::find(api@, "\"errorResponse\"".spec_bytes()) is None ==> match anony_credentials(api@) {
            Some((uid, tok)) => if 0 < uid.len() <= 32 && 0 < tok.len() <= 2048 && tok.len() <= old(token)@.len() {
                r matches Ok((u, n)) && u@ == uid && n == tok.len() && final(token)@.take(n as int) == tok
            } else {
                r == Err::<(&'a [u8], usize), crate::fetch::FetchError>(crate::fetch::FetchError::Network)
            },
            None => r == Err::<(&'a [u8], usize), crate::fetch::FetchError>(crate::fetch::FetchError::Network),
        },
{
    if response_has_error(api) {
        return Err(crate::fetch::FetchError::ClientError);
    }
    let uid = match crate::json_utils::extract_json_number(api, "userId".as_bytes()) {
        Some(v) => v,
        None => return Err(crate::fetch::FetchError::Network),
    };
    let scheme = match crate::json_utils::extract_json_string(api, "scheme".as_bytes()) {
        Some(v) => v,
        None => return Err(crate::fetch::FetchError::Network),
    };
    let parameter = match crate::json_utils::extract_json_string(api, "parameter".as_bytes()) {
        Some(v) => v,
        None => return Err(crate::fetch::FetchError::Network),
    };
    let ps = [Piece::Raw(scheme), Piece::Text(" "), Piece::Raw(parameter)];
    proof {
        reveal_with_fuel(pieces_bytes, 4);
        assert(pieces_bytes(ps@) =~= scheme@ + " ".spec_bytes() + parameter@);
        reveal_strlit(" ");
        broadcast use vstd::string::is_ascii_spec_bytes;
        assert(vstd::string::is_ascii(" "));
    }
    let mut c: usize = 0;
    if !put_pieces(token, &mut c, &ps) {
        return Err(crate::fetch::FetchError::Network);
    }
    if uid.len() == 0 || c == 0 || uid.len() > 32 || c > 2048 {
        return Err(crate::fetch::FetchError::Network);
    }
    assert(token@.take(c as int) =~= scheme@ + " ".spec_bytes() + parameter@);
    Ok((uid, c))
}

pub const AUTHED_HEAD: &'static str = "{\"version\":1,\"method\":\"GET\",\"url\":\"";

pub const AUTHED_AGENT: &'static str =
    "\",\"headers\":{\"User-Agent\":\"Dalvik/2.1.0 (Linux; U; Android 13; Koma Build/Koma)\",\"Authorization\":\"";

pub const AUTHED_TAIL: &'static str = "\",\"X-Yq-Yqci\":\"{\\\"at\\\":-1,\\\"av\\\":\\\"7.0.1\\\",\\\"ciso\\\":\\\"us\\\",\\\"cl\\\":\\\"dm5\\\",\\\"cy\\\":\\\"US\\\",\\\"di\\\":\\\"860000000000006\\\",\\\"dm\\\":\\\"Koma\\\",\\\"fcl\\\":\\\"dm5\\\",\\\"ft\\\":\\\"mhr\\\",\\\"fut\\\":\\\"1700000000000\\\",\\\"installation\\\":\\\"dm5\\\",\\\"le\\\":\\\"zh\\\",\\\"ln\\\":\\\"\\\",\\\"lut\\\":\\\"1700000000000\\\",\\\"nt\\\":3,\\\"os\\\":1,\\\"ov\\\":\\\"33_13\\\",\\\"pt\\\":\\\"com.mhr.mangamini\\\",\\\"rn\\\":\\\"1080x1920\\\",\\\"st\\\":0}\"},\"timeoutMs\":15000,\"responseKind\":\"bodyText\"}";

/// The host request for an authorised GET of `url`.
pub open spec fn authed_request_json(url: Seq<u8>, auth: Seq<u8>) -> Seq<u8> {
    AUTHED_HEAD.spec_bytes() + escaped(url) + AUTHED_AGENT.spec_bytes() + escaped(auth) + AUTHED_TAIL.spec_bytes()
}

/// Describes an authorised GET of `url` for the host; its length, or `None`
/// when it does not fit.
pub fn build_authed_get_request(dst: &mut [u8], url: &[u8], auth: &[u8]) -> (r: Option<usize>)
    ensures
        final(dst)@.len() == old(dst)@.len(),
        match r {
            Some(n) => n == authed_request_json(url@, auth@).len() && final(dst)@.take(n as int)
                == authed_request_json(url@, auth@),
            None => authed_request_json(url@, auth@).len() > old(dst)@.len(),
        },
{
    let ps = [
        Piece::Text(AUTHED_HEAD),
        Piece::Escaped(url),
        Piece::Text(AUTHED_AGENT),
        Piece::Escaped(auth),
        Piece::Text(AUTHED_TAIL),
    ];
    proof {
        reveal_with_fuel(pieces_bytes, 6);
        assert(pieces_bytes(ps@) =~= authed_request_json(url@, auth@));
    }
    let mut c: usize = 0;
    if !put_pieces(dst, &mut c, &ps) {
        return None;
    }
    assert(dst@.take(c as int) =~= authed_request_json(url@, auth@));
    Some(c)
}

} // verus!
