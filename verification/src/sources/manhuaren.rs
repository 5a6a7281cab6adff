//! The Manhuaren source: its signed API URLs (query parameters, the
//! signing material with the parameters in key order, MD5), and the JSON
//! answers built from the API's replies.
use vstd::prelude::*;
use vstd::slice::slice_subrange;
use vstd::string::StringSliceAdditionalSpecFns;
use crate::json_utils::{
    per_byte,
    appended, lemma_appended_fail_extend, lemma_appended_start, lemma_appended_then, put_bytes,
    put_str, put_url_encoded, url_encoded,
};
use crate::pieces::{flat, lemma_flat_empty, lemma_unit_fail, lemma_unit_ok, pieces_bytes, put_pieces, Piece};

verus! {

pub const API_BASE: &'static str = "http://mangaapi.manhuaren.com";

pub const WEB_BASE: &'static str = "https://www.manhuaren.com";

pub const GSN_SALT: &'static str = "4e0a48e1c0b54041bce9c8f0e036124d";

pub const PAGE_SIZE: usize = 20;

/// A query parameter of an API call.
#[derive(Clone, Copy)]
pub struct Param<'a> {
    pub key: &'a [u8],
    pub value: &'a [u8],
}

// ---------------------------------------------------------------------------
// Byte-string order
// ---------------------------------------------------------------------------

/// `a` sorts strictly before `b`, byte by byte, a proper prefix first.
pub open spec fn lex_lt(a: Seq<u8>, b: Seq<u8>) -> bool
    decreases a.len(),
{
    if a.len() == 0 {
        b.len() > 0
    } else if b.len() == 0 {
        false
    } else if a[0] != b[0] {
        a[0] < b[0]
    } else {
        lex_lt(a.drop_first(), b.drop_first())
    }
}

pub proof fn lemma_lex_irreflexive(a: Seq<u8>)
    ensures
        !lex_lt(a, a),
    decreases a.len(),
{
    if a.len() > 0 {
        lemma_lex_irreflexive(a.drop_first());
    }
}

pub proof fn lemma_lex_asymmetric(a: Seq<u8>, b: Seq<u8>)
    ensures
        !(lex_lt(a, b) && lex_lt(b, a)),
    decreases a.len(),
{
    if a.len() > 0 && b.len() > 0 && a[0] == b[0] {
        lemma_lex_asymmetric(a.drop_first(), b.drop_first());
    }
}

pub proof fn lemma_lex_transitive(a: Seq<u8>, b: Seq<u8>, c: Seq<u8>)
    requires
        lex_lt(a, b),
        lex_lt(b, c),
    ensures
        lex_lt(a, c),
    decreases a.len(),
{
    if a.len() > 0 && b.len() > 0 && c.len() > 0 && a[0] == b[0] && b[0] == c[0] {
        lemma_lex_transitive(a.drop_first(), b.drop_first(), c.drop_first());
    }
}

pub proof fn lemma_lex_total(a: Seq<u8>, b: Seq<u8>)
    ensures
        a == b || lex_lt(a, b) || lex_lt(b, a),
    decreases a.len(),
{
    if a.len() > 0 && b.len() > 0 && a[0] == b[0] {
        lemma_lex_total(a.drop_first(), b.drop_first());
        if a.drop_first() == b.drop_first() {
            assert(a =~= seq![a[0]] + a.drop_first());
            assert(b =~= seq![b[0]] + b.drop_first());
        }
    } else if a.len() == 0 && b.len() == 0 {
        assert(a =~= b);
    }
}

/// Compares two byte strings: -1, 0 or 1 as `a` sorts before, with or
/// after `b`.
pub fn bytes_cmp(a: &[u8], b: &[u8]) -> (r: i32)
    ensures
        r == -1 <==> lex_lt(a@, b@),
        r == 1 <==> lex_lt(b@, a@),
        r == 0 <==> a@ == b@,
{
    byte_order(a, b)
}

fn byte_order(a: &[u8], b: &[u8]) -> (r: i32)
    ensures
        r == -1 || r == 0 || r == 1,
        r == -1 <==> lex_lt(a@, b@),
        r == 1 <==> lex_lt(b@, a@),
        r == 0 <==> a@ == b@,
{
    let mut i: usize = 0;
    assert(a@.skip(0) =~= a@);
    assert(b@.skip(0) =~= b@);
    assert(a@.take(0) =~= b@.take(0));
    while i < a.len() && i < b.len()
        invariant
            0 <= i <= a@.len(),
            i <= b@.len(),
            a@.take(i as int) == b@.take(i as int),
            lex_lt(a@, b@) == lex_lt(a@.skip(i as int), b@.skip(i as int)),
            lex_lt(b@, a@) == lex_lt(b@.skip(i as int), a@.skip(i as int)),
        decreases a@.len() - i,
    {
        assert(a@.skip(i as int).drop_first() =~= a@.skip(i + 1));
        assert(b@.skip(i as int).drop_first() =~= b@.skip(i + 1));
        if a[i] < b[i] {
            proof {
                lemma_lex_asymmetric(a@, b@);
                assert(a@ != b@) by {
                    assert(a@[i as int] != b@[i as int]);
                }
            }
            return -1;
        }
        if a[i] > b[i] {
            proof {
                lemma_lex_asymmetric(a@, b@);
                assert(a@ != b@) by {
                    assert(a@[i as int] != b@[i as int]);
                }
            }
            return 1;
        }
        assert(a@.take(i + 1) =~= a@.take(i as int).push(a@[i as int]));
        assert(b@.take(i + 1) =~= b@.take(i as int).push(b@[i as int]));
        i = i + 1;
    }
    if a.len() < b.len() {
        proof {
            lemma_lex_asymmetric(a@, b@);
        }
        -1
    } else if a.len() > b.len() {
        proof {
            lemma_lex_asymmetric(a@, b@);
        }
        1
    } else {
        proof {
            assert(a@.take(i as int) =~= a@);
            assert(b@.take(i as int) =~= b@);
            lemma_lex_irreflexive(a@);
        }
        0
    }
}

// ---------------------------------------------------------------------------
// Parameters in key order
// ---------------------------------------------------------------------------

pub open spec fn keys_of(ps: Seq<Param>) -> Seq<Seq<u8>> {
    ps.map_values(|p: Param| p.key@)
}

/// Parameter `i` goes before parameter `j`: a smaller key, or the same key
/// and an earlier place.
pub open spec fn goes_before(keys: Seq<Seq<u8>>, i: int, j: int) -> bool {
    lex_lt(keys[i], keys[j]) || (keys[i] == keys[j] && i < j)
}

/// `o` lists every parameter once, in key order (parameters with the same
/// key in their given order).
pub open spec fn is_key_order(keys: Seq<Seq<u8>>, o: Seq<int>) -> bool {
    &&& o.len() == keys.len()
    &&& forall|a: int| 0 <= a < o.len() ==> 0 <= #[trigger] o[a] < keys.len()
    &&& forall|a: int, b: int| 0 <= a < b < o.len() ==> goes_before(keys, #[trigger] o[a], #[trigger] o[b])
}

proof fn lemma_before_irreflexive(keys: Seq<Seq<u8>>, i: int)
    ensures
        !goes_before(keys, i, i),
{
    lemma_lex_irreflexive(keys[i]);
}

proof fn lemma_before_asymmetric(keys: Seq<Seq<u8>>, i: int, j: int)
    ensures
        !(goes_before(keys, i, j) && goes_before(keys, j, i)),
{
    lemma_lex_asymmetric(keys[i], keys[j]);
    lemma_lex_irreflexive(keys[i]);
}

proof fn lemma_before_transitive(keys: Seq<Seq<u8>>, i: int, j: int, k: int)
    requires
        goes_before(keys, i, j),
        goes_before(keys, j, k),
    ensures
        goes_before(keys, i, k),
{
    if lex_lt(keys[i], keys[j]) && lex_lt(keys[j], keys[k]) {
        lemma_lex_transitive(keys[i], keys[j], keys[k]);
    }
}


/// Sorted by `goes_before`, hence without repeats.
pub open spec fn sorted_before(keys: Seq<Seq<u8>>, o: Seq<int>) -> bool {
    forall|a: int, b: int| 0 <= a < b < o.len() ==> goes_before(keys, #[trigger] o[a], #[trigger] o[b])
}

proof fn lemma_sorted_no_dups(keys: Seq<Seq<u8>>, o: Seq<int>)
    requires
        sorted_before(keys, o),
    ensures
        o.no_duplicates(),
{
    assert forall|a: int, b: int| 0 <= a < o.len() && 0 <= b < o.len() && a != b implies o[a] != o[b] by {
        if a < b {
            lemma_before_irreflexive(keys, o[a]);
        } else {
            lemma_before_irreflexive(keys, o[b]);
        }
    }
}

/// Two sorted lists of the same parameters are the same list.
proof fn lemma_sorted_same_set(keys: Seq<Seq<u8>>, o1: Seq<int>, o2: Seq<int>)
    requires
        sorted_before(keys, o1),
        sorted_before(keys, o2),
        o1.to_set() == o2.to_set(),
    ensures
        o1 == o2,
    decreases o1.len(),
{
    if o1.len() == 0 {
        if o2.len() > 0 {
            assert(o2.to_set().contains(o2[0]));
        }
        assert(o1 =~= o2);
    } else {
        assert(o1.to_set().contains(o1[0]));
        if o2.len() == 0 {
            assert(!o2.to_set().contains(o1[0]));
        }
        let b = choose|b: int| 0 <= b < o2.len() && o2[b] == o1[0];
        assert(o1.to_set().contains(o2[0]));
        let a = choose|a: int| 0 <= a < o1.len() && o1[a] == o2[0];
        if b > 0 {
            assert(goes_before(keys, o2[0], o2[b]));
            if a > 0 {
                assert(goes_before(keys, o1[0], o1[a]));
                lemma_before_asymmetric(keys, o1[0], o2[0]);
            } else {
                lemma_before_irreflexive(keys, o1[0]);
            }
        }
        assert(o1[0] == o2[0]);
        lemma_sorted_no_dups(keys, o1);
        lemma_sorted_no_dups(keys, o2);
        let t1 = o1.drop_first();
        let t2 = o2.drop_first();
        assert(t1.to_set() =~= o1.to_set().remove(o1[0])) by {
            assert forall|x: int| t1.to_set().contains(x) implies x != o1[0] by {
                let k = choose|k: int| 0 <= k < t1.len() && t1[k] == x;
                assert(o1[k + 1] == x);
            }
            assert forall|x: int| o1.to_set().remove(o1[0]).contains(x) implies t1.to_set().contains(x) by {
                let k = choose|k: int| 0 <= k < o1.len() && o1[k] == x;
                assert(t1[k - 1] == x);
            }
        }
        assert(t2.to_set() =~= o2.to_set().remove(o2[0])) by {
            assert forall|x: int| t2.to_set().contains(x) implies x != o2[0] by {
                let k = choose|k: int| 0 <= k < t2.len() && t2[k] == x;
                assert(o2[k + 1] == x);
            }
            assert forall|x: int| o2.to_set().remove(o2[0]).contains(x) implies t2.to_set().contains(x) by {
                let k = choose|k: int| 0 <= k < o2.len() && o2[k] == x;
                assert(t2[k - 1] == x);
            }
        }
        assert(sorted_before(keys, t1)) by {
            assert forall|x: int, y: int| 0 <= x < y < t1.len() implies goes_before(keys, #[trigger] t1[x], #[trigger] t1[y]) by {
                assert(t1[x] == o1[x + 1] && t1[y] == o1[y + 1]);
            }
        }
        assert(sorted_before(keys, t2)) by {
            assert forall|x: int, y: int| 0 <= x < y < t2.len() implies goes_before(keys, #[trigger] t2[x], #[trigger] t2[y]) by {
                assert(t2[x] == o2[x + 1] && t2[y] == o2[y + 1]);
            }
        }
        lemma_sorted_same_set(keys, t1, t2);
        assert(o1 =~= seq![o1[0]] + t1);
        assert(o2 =~= seq![o2[0]] + t2);
    }
}

/// There is only one key order of a list of parameters.
pub proof fn lemma_key_order_unique(keys: Seq<Seq<u8>>, o1: Seq<int>, o2: Seq<int>)
    requires
        is_key_order(keys, o1),
        is_key_order(keys, o2),
    ensures
        o1 == o2,
{
    lemma_sorted_no_dups(keys, o1);
    lemma_sorted_no_dups(keys, o2);
    let r = vstd::set_lib::set_int_range(0, keys.len() as int);
    vstd::set_lib::lemma_int_range(0, keys.len() as int);
    o1.unique_seq_to_set();
    o2.unique_seq_to_set();
    assert(o1.to_set().subset_of(r));
    assert(o2.to_set().subset_of(r));
    assert(o1.to_set() =~= r) by {
        if !(o1.to_set() =~= r) {
            let x = choose|x: int| r.contains(x) && !o1.to_set().contains(x);
            vstd::set_lib::lemma_len_subset(o1.to_set(), r.remove(x));
        }
    }
    assert(o2.to_set() =~= r) by {
        if !(o2.to_set() =~= r) {
            let x = choose|x: int| r.contains(x) && !o2.to_set().contains(x);
            vstd::set_lib::lemma_len_subset(o2.to_set(), r.remove(x));
        }
    }
    lemma_sorted_same_set(keys, o1, o2);
}

pub open spec fn index_view(o: Seq<usize>) -> Seq<int> {
    o.map_values(|i: usize| i as int)
}

/// Puts the parameters in key order by repeatedly taking the first of the
/// smallest keys not taken yet.
pub fn key_order(params: &[Param]) -> (r: Vec<usize>)
    requires
        params@.len() <= 64,
    ensures
        is_key_order(keys_of(params@), index_view(r@)),
{
    let ghost keys = keys_of(params@);
    let n = params.len();
    let mut used: [bool; 64] = [false; 64];
    let mut order: Vec<usize> = Vec::new();
    while order.len() < n
        invariant
            n == params@.len(),
            n <= 64,
            keys == keys_of(params@),
            order@.len() <= n,
            forall|a: int| 0 <= a < order@.len() ==> #[trigger] order@[a] < n,
            forall|i: int| 0 <= i < n ==> (used@[i] <==> index_view(order@).contains(i)),
            sorted_before(keys, index_view(order@)),
            forall|a: int, j: int|
                #![trigger order@[a], used@[j]]
                0 <= a < order@.len() && 0 <= j < n && !used@[j] ==> goes_before(keys, order@[a] as int, j),
        ensures
            order@.len() == n,
        decreases n - order@.len(),
    {
        let mut best: Option<usize> = None;
        let mut i: usize = 0;
        while i < n
            invariant
                n == params@.len(),
                n <= 64,
                0 <= i <= n,
                keys == keys_of(params@),
                match best {
                    Some(bi) => bi < i && !used@[bi as int] && forall|k: int|
                        0 <= k < i && !used@[k] && k != bi ==> goes_before(keys, bi as int, k),
                    None => forall|k: int| 0 <= k < i ==> used@[k],
                },
            decreases n - i,
        {
            if !used[i] {
                match best {
                    Some(bi) => {
                        let c = byte_order(params[i].key, params[bi].key);
                        assert(keys[i as int] == params@[i as int].key@);
                        assert(keys[bi as int] == params@[bi as int].key@);
                        if c < 0 {
                            proof {
                                assert forall|k: int| 0 <= k < i + 1 && !used@[k] && k != i implies goes_before(
                                    keys,
                                    i as int,
                                    k,
                                ) by {
                                    if k != bi {
                                        lemma_before_transitive(keys, i as int, bi as int, k);
                                    }
                                }
                            }
                            best = Some(i);
                        } else {
                            proof {
                                lemma_lex_total(keys[i as int], keys[bi as int]);
                            }
                        }
                    },
                    None => {
                        best = Some(i);
                    },
                }
            }
            i = i + 1;
        }
        let idx = match best {
            Some(v) => v,
            None => {
                proof {
                    let o = index_view(order@);
                    let r = vstd::set_lib::set_int_range(0, n as int);
                    vstd::set_lib::lemma_int_range(0, n as int);
                    lemma_sorted_no_dups(keys, o);
                    o.unique_seq_to_set();
                    assert(r.subset_of(o.to_set())) by {
                        assert forall|x: int| r.contains(x) implies o.to_set().contains(x) by {
                            assert(used@[x]);
                        }
                    }
                    vstd::set_lib::lemma_len_subset(r, o.to_set());
                }
                break;
            },
        };
        let ghost before = order@;
        used[idx] = true;
        order.push(idx);
        proof {
            let o = index_view(order@);
            assert(index_view(before).push(idx as int) =~= o);
            assert(sorted_before(keys, o)) by {
                assert forall|a: int, b: int| 0 <= a < b < o.len() implies goes_before(
                    keys,
                    #[trigger] o[a],
                    #[trigger] o[b],
                ) by {
                    if b == o.len() - 1 {
                        assert(o[a] == before[a] as int);
                    } else {
                        assert(o[a] == index_view(before)[a] && o[b] == index_view(before)[b]);
                    }
                }
            }
            assert forall|i: int| 0 <= i < n implies (used@[i] <==> o.contains(i)) by {
                if i == idx {
                    assert(o[o.len() - 1] == i);
                } else if used@[i] {
                    assert(index_view(before).contains(i));
                    let a = choose|a: int| 0 <= a < index_view(before).len() && index_view(before)[a] == i;
                    assert(o[a] == i);
                } else if o.contains(i) {
                    let a = choose|a: int| 0 <= a < o.len() && o[a] == i;
                    assert(index_view(before)[a] == i);
                }
            }
            assert forall|a: int, j: int|
                #![trigger order@[a], used@[j]]
                0 <= a < order@.len() && 0 <= j < n && !used@[j] implies goes_before(keys, order@[a] as int, j) by {
                if a < before.len() {
                    assert(order@[a] == before[a]);
                }
            }
        }
    }
    proof {
        let o = index_view(order@);
        assert forall|a: int| 0 <= a < o.len() implies 0 <= #[trigger] o[a] < keys.len() by {
            assert(o[a] == order@[a] as int);
        }
    }
    order
}

/// Each parameter's key and URL-encoded value, in the order `o`.
pub open spec fn gsn_units(ps: Seq<Param>, o: Seq<int>) -> Seq<Seq<u8>> {
    Seq::new(o.len(), |k: int| ps[o[k]].key@ + url_encoded(ps[o[k]].value@))
}

/// The text a request is signed over: the salt, the method, each
/// parameter's key and URL-encoded value in the order `o`, the salt.
pub open spec fn gsn_material(method: Seq<u8>, ps: Seq<Param>, o: Seq<int>) -> Seq<u8> {
    GSN_SALT.spec_bytes() + method + flat(gsn_units(ps, o)) + GSN_SALT.spec_bytes()
}

/// The signing material in the key order `o` went out from `c0`, whole or
/// in part as `ok` says.
pub open spec fn gsn_written(
    d0: Seq<u8>,
    c0: int,
    method: Seq<u8>,
    ps: Seq<Param>,
    o: Seq<int>,
    d1: Seq<u8>,
    c1: int,
    ok: bool,
) -> bool {
    is_key_order(keys_of(ps), o) && appended(d0, c0, gsn_material(method, ps, o), d1, c1, ok)
}

/// Writes the signing material of a request: its parameters in key order.
pub fn append_sorted_gsn_material(dst: &mut [u8], cursor: &mut usize, method: &[u8], params: &[Param]) -> (ok: bool)
    requires
        params@.len() <= 64,
        *old(cursor) <= old(dst)@.len(),
    ensures
        final(dst)@.len() == old(dst)@.len(),
        *final(cursor) <= final(dst)@.len(),
        exists|o: Seq<int>|
            #[trigger] gsn_written(old(dst)@, *old(cursor) as int, method@, params@, o, final(dst)@, *final(cursor) as int, ok),
{
    let order = key_order(params);
    let ghost o = index_view(order@);
    let ghost us = gsn_units(params@, o);
    let ghost salt = GSN_SALT.spec_bytes();
    let ghost full = gsn_material(method@, params@, o);
    let ghost d0 = dst@;
    let ghost c0 = *cursor as int;
    let ok1 = put_str(dst, cursor, GSN_SALT);
    if !ok1 {
        proof {
            lemma_appended_fail_extend(d0, c0, salt, dst@, *cursor as int, method@ + flat(us) + salt);
            assert(salt + (method@ + flat(us) + salt) =~= full);
            assert(gsn_written(d0, c0, method@, params@, o, dst@, *cursor as int, false));
        }
        return false;
    }
    let ghost d1 = dst@;
    let ghost c1 = *cursor as int;
    let ok2 = put_bytes(dst, cursor, method);
    proof {
        lemma_appended_then(d0, c0, salt, d1, c1, method@, dst@, *cursor as int, ok2);
    }
    if !ok2 {
        proof {
            lemma_appended_fail_extend(d0, c0, salt + method@, dst@, *cursor as int, flat(us) + salt);
            assert(salt + method@ + (flat(us) + salt) =~= full);
            assert(gsn_written(d0, c0, method@, params@, o, dst@, *cursor as int, false));
        }
        return false;
    }
    let ghost dh = dst@;
    let ghost ch = *cursor as int;
    let mut k: usize = 0;
    proof {
        lemma_flat_empty(us);
        lemma_appended_start(dh, ch);
    }
    while k < order.len()
        invariant
            0 <= k <= order@.len(),
            o == index_view(order@),
            is_key_order(keys_of(params@), o),
            us == gsn_units(params@, o),
            dh.len() == d0.len(),
            0 <= ch <= dh.len(),
            dst@.len() == d0.len(),
            *cursor <= dst@.len(),
            appended(dh, ch, flat(us.take(k as int)), dst@, *cursor as int, true),
            appended(d0, c0, salt + method@, dh, ch, true),
            full == gsn_material(method@, params@, o),
            0 <= c0 <= d0.len(),
            d0 == old(dst)@,
            c0 == *old(cursor) as int,
            salt == GSN_SALT.spec_bytes(),
        decreases order@.len() - k,
    {
        let i = order[k];
        assert(o[k as int] == i as int);
        let p = params[i];
        let ps = [Piece::Raw(p.key), Piece::UrlEncoded(p.value)];
        proof {
            reveal_with_fuel(pieces_bytes, 3);
            assert(pieces_bytes(ps@) =~= us[k as int]);
        }
        let ghost dm = dst@;
        let ghost cm = *cursor as int;
        let good = put_pieces(dst, cursor, &ps);
        if !good {
            proof {
                lemma_unit_fail(us, k as int, dh, ch, dm, cm, dst@, *cursor as int);
                lemma_appended_then(d0, c0, salt + method@, dh, ch, flat(us), dst@, *cursor as int, false);
                lemma_appended_fail_extend(d0, c0, salt + method@ + flat(us), dst@, *cursor as int, salt);
                assert(gsn_written(d0, c0, method@, params@, o, dst@, *cursor as int, false));
            }
            return false;
        }
        proof {
            lemma_unit_ok(us, k as int, dh, ch, dm, cm, dst@, *cursor as int);
        }
        k = k + 1;
    }
    proof {
        assert(us.take(k as int) =~= us);
        lemma_appended_then(d0, c0, salt + method@, dh, ch, flat(us), dst@, *cursor as int, true);
    }
    let ghost dt = dst@;
    let ghost ct = *cursor as int;
    let ok3 = put_str(dst, cursor, GSN_SALT);
    proof {
        lemma_appended_then(d0, c0, salt + method@ + flat(us), dt, ct, salt, dst@, *cursor as int, ok3);
        assert(gsn_written(d0, c0, method@, params@, o, dst@, *cursor as int, ok3));
    }
    ok3
}

/// Writes `?key=value` for the first parameter and `&key=value` after,
/// the value URL-encoded.
pub fn write_query_param(dst: &mut [u8], cursor: &mut usize, first: &mut bool, p: Param) -> (ok: bool)
    requires
        *old(cursor) <= old(dst)@.len(),
    ensures
        final(dst)@.len() == old(dst)@.len(),
        *final(cursor) <= final(dst)@.len(),
        appended(
            old(dst)@,
            *old(cursor) as int,
            query_param(*old(first), p.key@, p.value@),
            final(dst)@,
            *final(cursor) as int,
            ok,
        ),
        ok ==> !*final(first),
{
    let ps = [
        Piece::Text(if *first { "?" } else { "&" }),
        Piece::Raw(p.key),
        Piece::Text("="),
        Piece::UrlEncoded(p.value),
    ];
    proof {
        reveal_with_fuel(pieces_bytes, 5);
        assert(pieces_bytes(ps@) =~= query_param(*old(first), p.key@, p.value@));
    }
    let ok = put_pieces(dst, cursor, &ps);
    if ok {
        *first = false;
    }
    ok
}

/// One query parameter: `?` or `&`, the key, `=`, the encoded value.
pub open spec fn query_param(first: bool, key: Seq<u8>, value: Seq<u8>) -> Seq<u8> {
    (if first {
        "?".spec_bytes()
    } else {
        "&".spec_bytes()
    }) + key + "=".spec_bytes() + url_encoded(value)
}

pub const IMEI: &'static str = "860000000000006";

pub const LAST_USED_TIME: &'static str = "1700000000000";

pub const GTS: &'static str = "2026-05-25+00:00:00";

pub const USER_ID_FALLBACK: &'static str = "-1";

/// The parameters every API call carries, for user `uid`.
#[verifier::opaque]
pub open spec fn common_table(uid: Seq<u8>) -> Seq<(Seq<u8>, Seq<u8>)> {
    seq![
        ("gsm".spec_bytes(), "md5".spec_bytes()),
        ("gft".spec_bytes(), "json".spec_bytes()),
        ("gak".spec_bytes(), "android_manhuaren2".spec_bytes()),
        ("gat".spec_bytes(), "".spec_bytes()),
        ("gui".spec_bytes(), uid),
        ("gts".spec_bytes(), GTS.spec_bytes()),
        ("gut".spec_bytes(), "0".spec_bytes()),
        ("gem".spec_bytes(), "1".spec_bytes()),
        ("gaui".spec_bytes(), uid),
        ("gln".spec_bytes(), "".spec_bytes()),
        ("gcy".spec_bytes(), "US".spec_bytes()),
        ("gle".spec_bytes(), "zh".spec_bytes()),
        ("gcl".spec_bytes(), "dm5".spec_bytes()),
        ("gos".spec_bytes(), "1".spec_bytes()),
        ("gov".spec_bytes(), "33_13".spec_bytes()),
        ("gav".spec_bytes(), "7.0.1".spec_bytes()),
        ("gdi".spec_bytes(), IMEI.spec_bytes()),
        ("gfcl".spec_bytes(), "dm5".spec_bytes()),
        ("gfut".spec_bytes(), LAST_USED_TIME.spec_bytes()),
        ("glut".spec_bytes(), LAST_USED_TIME.spec_bytes()),
        ("gpt".spec_bytes(), "com.mhr.mangamini".spec_bytes()),
        ("gciso".spec_bytes(), "us".spec_bytes()),
        ("glot".spec_bytes(), "".spec_bytes()),
        ("glat".spec_bytes(), "".spec_bytes()),
        ("gflot".spec_bytes(), "".spec_bytes()),
        ("gflat".spec_bytes(), "".spec_bytes()),
        ("glbsaut".spec_bytes(), "0".spec_bytes()),
        ("gac".spec_bytes(), "".spec_bytes()),
        ("gcut".spec_bytes(), "GMT+8".spec_bytes()),
        ("gfcc".spec_bytes(), "".spec_bytes()),
        ("gflg".spec_bytes(), "".spec_bytes()),
        ("glcn".spec_bytes(), "".spec_bytes()),
        ("glcc".spec_bytes(), "".spec_bytes()),
        ("gflcc".spec_bytes(), "".spec_bytes())
    ]
}

pub open spec fn param_view(p: Param) -> (Seq<u8>, Seq<u8>) {
    (p.key@, p.value@)
}

/// The parameters every API call carries, for user `user_id`.
pub fn common_params<'a>(user_id: &'a [u8]) -> (r: [Param<'a>; 34])
    ensures
        r@.map_values(|p: Param| param_view(p)) == common_table(user_id@),
{
    let r = [
        Param { key: "gsm".as_bytes(), value: "md5".as_bytes() },
        Param { key: "gft".as_bytes(), value: "json".as_bytes() },
        Param { key: "gak".as_bytes(), value: "android_manhuaren2".as_bytes() },
        Param { key: "gat".as_bytes(), value: "".as_bytes() },
        Param { key: "gui".as_bytes(), value: user_id },
        Param { key: "gts".as_bytes(), value: GTS.as_bytes() },
        Param { key: "gut".as_bytes(), value: "0".as_bytes() },
        Param { key: "gem".as_bytes(), value: "1".as_bytes() },
        Param { key: "gaui".as_bytes(), value: user_id },
        Param { key: "gln".as_bytes(), value: "".as_bytes() },
        Param { key: "gcy".as_bytes(), value: "US".as_bytes() },
        Param { key: "gle".as_bytes(), value: "zh".as_bytes() },
        Param { key: "gcl".as_bytes(), value: "dm5".as_bytes() },
        Param { key: "gos".as_bytes(), value: "1".as_bytes() },
        Param { key: "gov".as_bytes(), value: "33_13".as_bytes() },
        Param { key: "gav".as_bytes(), value: "7.0.1".as_bytes() },
        Param { key: "gdi".as_bytes(), value: IMEI.as_bytes() },
        Param { key: "gfcl".as_bytes(), value: "dm5".as_bytes() },
        Param { key: "gfut".as_bytes(), value: LAST_USED_TIME.as_bytes() },
        Param { key: "glut".as_bytes(), value: LAST_USED_TIME.as_bytes() },
        Param { key: "gpt".as_bytes(), value: "com.mhr.mangamini".as_bytes() },
        Param { key: "gciso".as_bytes(), value: "us".as_bytes() },
        Param { key: "glot".as_bytes(), value: "".as_bytes() },
        Param { key: "glat".as_bytes(), value: "".as_bytes() },
        Param { key: "gflot".as_bytes(), value: "".as_bytes() },
        Param { key: "gflat".as_bytes(), value: "".as_bytes() },
        Param { key: "glbsaut".as_bytes(), value: "0".as_bytes() },
        Param { key: "gac".as_bytes(), value: "".as_bytes() },
        Param { key: "gcut".as_bytes(), value: "GMT+8".as_bytes() },
        Param { key: "gfcc".as_bytes(), value: "".as_bytes() },
        Param { key: "gflg".as_bytes(), value: "".as_bytes() },
        Param { key: "glcn".as_bytes(), value: "".as_bytes() },
        Param { key: "glcc".as_bytes(), value: "".as_bytes() },
        Param { key: "gflcc".as_bytes(), value: "".as_bytes() },
    ];
    assert(r@.map_values(|p: Param| param_view(p)) =~= common_table(user_id@)) by {
        reveal(common_table);
    }
    r
}

// ---------------------------------------------------------------------------
// MD5
// ---------------------------------------------------------------------------

/// The per-round shift amounts of MD5.
pub open spec fn md5_s_table() -> Seq<u32> {
    seq![7u32, 12u32, 17u32, 22u32, 7u32, 12u32, 17u32, 22u32, 7u32, 12u32, 17u32, 22u32, 7u32, 12u32, 17u32, 22u32, 5u32, 9u32, 14u32, 20u32, 5u32, 9u32, 14u32, 20u32, 5u32, 9u32, 14u32, 20u32, 5u32, 9u32, 14u32, 20u32, 4u32, 11u32, 16u32, 23u32, 4u32, 11u32, 16u32, 23u32, 4u32, 11u32, 16u32, 23u32, 4u32, 11u32, 16u32, 23u32, 6u32, 10u32, 15u32, 21u32, 6u32, 10u32, 15u32, 21u32, 6u32, 10u32, 15u32, 21u32, 6u32, 10u32, 15u32, 21u32]
}

/// The per-round constants of MD5.
pub open spec fn md5_k_table() -> Seq<u32> {
    seq![0xd76aa478u32, 0xe8c7b756u32, 0x242070dbu32, 0xc1bdceeeu32, 0xf57c0fafu32, 0x4787c62au32, 0xa8304613u32, 0xfd469501u32, 0x698098d8u32, 0x8b44f7afu32, 0xffff5bb1u32, 0x895cd7beu32, 0x6b901122u32, 0xfd987193u32, 0xa679438eu32, 0x49b40821u32, 0xf61e2562u32, 0xc040b340u32, 0x265e5a51u32, 0xe9b6c7aau32, 0xd62f105du32, 0x02441453u32, 0xd8a1e681u32, 0xe7d3fbc8u32, 0x21e1cde6u32, 0xc33707d6u32, 0xf4d50d87u32, 0x455a14edu32, 0xa9e3e905u32, 0xfcefa3f8u32, 0x676f02d9u32, 0x8d2a4c8au32, 0xfffa3942u32, 0x8771f681u32, 0x6d9d6122u32, 0xfde5380cu32, 0xa4beea44u32, 0x4bdecfa9u32, 0xf6bb4b60u32, 0xbebfbc70u32, 0x289b7ec6u32, 0xeaa127fau32, 0xd4ef3085u32, 0x04881d05u32, 0xd9d4d039u32, 0xe6db99e5u32, 0x1fa27cf8u32, 0xc4ac5665u32, 0xf4292244u32, 0x432aff97u32, 0xab9423a7u32, 0xfc93a039u32, 0x655b59c3u32, 0x8f0ccc92u32, 0xffeff47du32, 0x85845dd1u32, 0x6fa87e4fu32, 0xfe2ce6e0u32, 0xa3014314u32, 0x4e0811a1u32, 0xf7537e82u32, 0xbd3af235u32, 0x2ad7d2bbu32, 0xeb86d391u32]
}

pub open spec fn add32(x: u32, y: u32) -> u32 {
    if x + y > u32::MAX {
        (x + y - 0x1_0000_0000) as u32
    } else {
        (x + y) as u32
    }
}

pub open spec fn rotl(x: u32, s: u32) -> u32 {
    (x << s) | (x >> (32 - s) as u32)
}

pub type Md5State = (u32, u32, u32, u32);

/// The mixing function and message word index of round `i`.
pub open spec fn md5_mix(st: Md5State, i: int) -> (u32, int) {
    let (b, c, d) = (st.1, st.2, st.3);
    if i < 16 {
        ((b & c) | (!b & d), i)
    } else if i < 32 {
        ((d & b) | (!d & c), (5 * i + 1) % 16)
    } else if i < 48 {
        (b ^ c ^ d, (3 * i + 5) % 16)
    } else {
        (c ^ (b | !d), (7 * i) % 16)
    }
}

/// Round `i` of MD5 over the message words `m`.
pub open spec fn md5_round(m: Seq<u32>, st: Md5State, i: int) -> Md5State {
    let (f, g) = md5_mix(st, i);
    let (a, b, c, d) = st;
    (d, add32(b, rotl(add32(add32(add32(a, f), md5_k_table()[i]), m[g]), md5_s_table()[i])), b, c)
}

/// Rounds `i` to 63.
pub open spec fn md5_rounds(m: Seq<u32>, st: Md5State, i: int) -> Md5State
    decreases 64 - i,
{
    if i >= 64 || i < 0 {
        st
    } else {
        md5_rounds(m, md5_round(m, st, i), i + 1)
    }
}

/// The little-endian word at `j`.
pub open spec fn le_word(b: Seq<u8>, j: int) -> u32 {
    (b[j] as u32) | ((b[j + 1] as u32) << 8u32) | ((b[j + 2] as u32) << 16u32) | ((b[j + 3] as u32) << 24u32)
}

pub open spec fn block_words(block: Seq<u8>) -> Seq<u32> {
    Seq::new(16, |i: int| le_word(block, 4 * i))
}

/// MD5's compression of one 64-byte block into the state.
pub open spec fn md5_compress(st: Md5State, block: Seq<u8>) -> Md5State {
    let r = md5_rounds(block_words(block), st, 0);
    (add32(st.0, r.0), add32(st.1, r.1), add32(st.2, r.2), add32(st.3, r.3))
}

pub open spec fn md5_init() -> Md5State {
    (0x67452301u32, 0xefcdab89u32, 0x98badcfeu32, 0x10325476u32)
}

pub open spec fn le64_bytes(n: u64) -> Seq<u8> {
    Seq::new(8, |i: int| ((n >> (8 * i) as u64) & 0xff) as u8)
}

pub open spec fn le32_bytes(x: u32) -> Seq<u8> {
    seq![(x & 0xff) as u8, ((x >> 8u32) & 0xff) as u8, ((x >> 16u32) & 0xff) as u8, ((x >> 24u32) & 0xff) as u8]
}

/// The message padded as MD5 pads it: a 0x80 byte, zeros up to 56 bytes
/// past a multiple of 64, and the bit length in 8 little-endian bytes.
pub open spec fn md5_padded(msg: Seq<u8>) -> Seq<u8> {
    let rem = msg.len() % 64;
    let zeros = if rem < 56 {
        55 - rem
    } else {
        119 - rem
    };
    msg + seq![0x80u8] + Seq::new(zeros as nat, |i: int| 0u8) + le64_bytes((msg.len() * 8) as u64)
}

/// The state after the first `k` blocks of `data`.
pub open spec fn md5_fold(data: Seq<u8>, k: int) -> Md5State
    decreases k,
{
    if k <= 0 {
        md5_init()
    } else {
        md5_compress(md5_fold(data, k - 1), data.subrange(64 * (k - 1), 64 * k))
    }
}

/// The MD5 digest of `msg`.
pub open spec fn md5_digest(msg: Seq<u8>) -> Seq<u8> {
    let p = md5_padded(msg);
    let st = md5_fold(p, p.len() as int / 64);
    le32_bytes(st.0) + le32_bytes(st.1) + le32_bytes(st.2) + le32_bytes(st.3)
}

/// Round `i` of MD5.
fn md5_step(a: u32, b: u32, c: u32, d: u32, i: usize, m: &[u32; 16], k_tab: &[u32; 64], s_tab: &[u32; 64]) -> (r: (u32, u32, u32, u32))
    requires
        i < 64,
        s_tab@ == md5_s_table(),
        k_tab@ == md5_k_table(),
    ensures
        r == md5_round(m@, (a, b, c, d), i as int),
{
    let ghost st: Md5State = (a, b, c, d);
    let (f, g): (u32, usize) = if i < 16 {
        ((b & c) | ((!b) & d), i)
    } else if i < 32 {
        ((d & b) | ((!d) & c), (5 * i + 1) % 16)
    } else if i < 48 {
        (b ^ c ^ d, (3 * i + 5) % 16)
    } else {
        (c ^ (b | (!d)), (7 * i) % 16)
    };
    assert(md5_mix(st, i as int) == (f, g as int));
    let sh = s_tab[i];
    assert(0 < sh < 32) by {
        assert(md5_s_table()[i as int] == sh);
    }
    let x = a.wrapping_add(f).wrapping_add(k_tab[i]).wrapping_add(m[g]);
    let rot = (x << sh) | (x >> (32 - sh));
    (d, b.wrapping_add(rot), b, c)
}

/// Compresses one 64-byte block into the MD5 state.
pub fn md5_block(block: &[u8], a0: &mut u32, b0: &mut u32, c0: &mut u32, d0: &mut u32)
    requires
        block@.len() >= 64,
    ensures
        (*final(a0), *final(b0), *final(c0), *final(d0)) == md5_compress(
            (*old(a0), *old(b0), *old(c0), *old(d0)),
            block@.take(64),
        ),
{
    let s_tab: [u32; 64] = [7, 12, 17, 22, 7, 12, 17, 22, 7, 12, 17, 22, 7, 12, 17, 22, 5, 9, 14, 20, 5, 9, 14, 20, 5, 9, 14, 20, 5, 9, 14, 20, 4, 11, 16, 23, 4, 11, 16, 23, 4, 11, 16, 23, 4, 11, 16, 23, 6, 10, 15, 21, 6, 10, 15, 21, 6, 10, 15, 21, 6, 10, 15, 21];
    let k_tab: [u32; 64] = [0xd76aa478, 0xe8c7b756, 0x242070db, 0xc1bdceee, 0xf57c0faf, 0x4787c62a, 0xa8304613, 0xfd469501, 0x698098d8, 0x8b44f7af, 0xffff5bb1, 0x895cd7be, 0x6b901122, 0xfd987193, 0xa679438e, 0x49b40821, 0xf61e2562, 0xc040b340, 0x265e5a51, 0xe9b6c7aa, 0xd62f105d, 0x02441453, 0xd8a1e681, 0xe7d3fbc8, 0x21e1cde6, 0xc33707d6, 0xf4d50d87, 0x455a14ed, 0xa9e3e905, 0xfcefa3f8, 0x676f02d9, 0x8d2a4c8a, 0xfffa3942, 0x8771f681, 0x6d9d6122, 0xfde5380c, 0xa4beea44, 0x4bdecfa9, 0xf6bb4b60, 0xbebfbc70, 0x289b7ec6, 0xeaa127fa, 0xd4ef3085, 0x04881d05, 0xd9d4d039, 0xe6db99e5, 0x1fa27cf8, 0xc4ac5665, 0xf4292244, 0x432aff97, 0xab9423a7, 0xfc93a039, 0x655b59c3, 0x8f0ccc92, 0xffeff47d, 0x85845dd1, 0x6fa87e4f, 0xfe2ce6e0, 0xa3014314, 0x4e0811a1, 0xf7537e82, 0xbd3af235, 0x2ad7d2bb, 0xeb86d391];
    assert(s_tab@ =~= md5_s_table());
    assert(k_tab@ =~= md5_k_table());
    let mut m: [u32; 16] = [0; 16];
    let mut i: usize = 0;
    while i < 16
        invariant
            0 <= i <= 16,
            block@.len() >= 64,
            forall|k: int| 0 <= k < i ==> m@[k] == le_word(block@, 4 * k),
        decreases 16 - i,
    {
        let j = i * 4;
        m[i] = (block[j] as u32) | ((block[j + 1] as u32) << 8u32) | ((block[j + 2] as u32) << 16u32)
            | ((block[j + 3] as u32) << 24u32);
        i = i + 1;
    }
    let ghost words = block_words(block@.take(64));
    assert(m@ =~= words) by {
        assert forall|k: int| 0 <= k < 16 implies m@[k] == words[k] by {
            assert(le_word(block@, 4 * k) == le_word(block@.take(64), 4 * k));
        }
    }
    let ghost st0: Md5State = (*a0, *b0, *c0, *d0);
    let mut a = *a0;
    let mut b = *b0;
    let mut c = *c0;
    let mut d = *d0;
    i = 0;
    while i < 64
        invariant
            0 <= i <= 64,
            m@ == words,
            s_tab@ == md5_s_table(),
            k_tab@ == md5_k_table(),
            md5_rounds(words, st0, 0) == md5_rounds(words, (a, b, c, d), i as int),
        decreases 64 - i,
    {
        let (na, nb, nc, nd) = md5_step(a, b, c, d, i, &m, &k_tab, &s_tab);
        a = na;
        b = nb;
        c = nc;
        d = nd;
        i = i + 1;
    }
    *a0 = a0.wrapping_add(a);
    *b0 = b0.wrapping_add(b);
    *c0 = c0.wrapping_add(c);
    *d0 = d0.wrapping_add(d);
}

/// The MD5 digest of `input`.
#[verifier::rlimit(80)]
pub fn md5(input: &[u8], out: &mut [u8; 16])
    requires
        input@.len() * 8 <= u64::MAX,
    ensures
        final(out)@ == md5_digest(input@),
{
    let ghost p = md5_padded(input@);
    let mut a0: u32 = 0x67452301;
    let mut b0: u32 = 0xefcdab89;
    let mut c0: u32 = 0x98badcfe;
    let mut d0: u32 = 0x10325476;
    let bit_len: u64 = (input.len() as u64) * 8;
    let mut offset: usize = 0;
    proof {
        assert(p.subrange(0, input@.len() as int) =~= input@);
    }
    while input.len() - offset >= 64
        invariant
            offset <= input@.len(),
            offset % 64 == 0,
            p == md5_padded(input@),
            p.subrange(0, input@.len() as int) == input@,
            (a0, b0, c0, d0) == md5_fold(p, offset as int / 64),
        decreases input@.len() - offset,
    {
        let blk = slice_subrange(input, offset, offset + 64);
        proof {
            assert(blk@.take(64) =~= p.subrange(offset as int, offset + 64)) by {
                assert forall|k: int| 0 <= k < 64 implies blk@.take(64)[k] == p.subrange(offset as int, offset + 64)[k] by {
                    assert(p.subrange(0, input@.len() as int)[offset + k] == input@[offset + k]);
                }
            }
            assert((offset + 64) / 64 == offset as int / 64 + 1);
        }
        md5_block(blk, &mut a0, &mut b0, &mut c0, &mut d0);
        offset = offset + 64;
    }
    let rem = input.len() - offset;
    let mut block: [u8; 64] = [0; 64];
    let mut i: usize = 0;
    while i < rem
        invariant
            0 <= i <= rem < 64,
            rem == input@.len() - offset,
            offset + rem == input@.len(),
            forall|k: int| 0 <= k < i ==> block@[k] == input@[offset + k],
            forall|k: int| i <= k < 64 ==> block@[k] == 0,
        decreases rem - i,
    {
        assert(offset + i < input.len());
        block[i] = input[offset + i];
        i = i + 1;
    }
    block[rem] = 0x80;
    let ghost le = le64_bytes(bit_len);
    proof {
        assert(p.len() == input@.len() + 1 + (if rem < 56 { 55 - rem } else { 119 - rem }) + 8);
        assert forall|k: int| 0 <= k < rem implies #[trigger] p[offset + k] == input@[offset + k] by {
            assert(p.subrange(0, input@.len() as int)[offset + k] == input@[offset + k]);
        }
        assert(p[input@.len() as int] == 0x80);
        assert forall|k: int| 0 <= k < 8 implies #[trigger] p[p.len() - 8 + k] == le[k] by {}
    }
    let ghost mut fo: int = offset as int;
    if rem >= 56 {
        proof {
            assert(block@ =~= p.subrange(offset as int, offset + 64)) by {
                assert forall|k: int| 0 <= k < 64 implies block@[k] == p.subrange(offset as int, offset + 64)[k] by {
                    if k > rem {
                        assert(p[offset + k] == 0);
                    }
                }
            }
            assert(block@.take(64) =~= block@);
            assert((offset + 64) / 64 == offset as int / 64 + 1);
        }
        md5_block(&block, &mut a0, &mut b0, &mut c0, &mut d0);
        block = [0; 64];
        proof {
            fo = offset + 64;
        }
    }
    proof {
        assert(p.len() == fo + 64);
        assert(fo % 64 == 0);
        assert((a0, b0, c0, d0) == md5_fold(p, fo / 64));
        assert forall|k: int| 0 <= k < 56 implies block@[k] == p[fo + k] by {
            if rem < 56 && k > rem {
                assert(p[fo + k] == 0);
            }
            if rem >= 56 {
                assert(p[fo + k] == 0);
            }
        }
    }
    let mut j: usize = 0;
    while j < 8
        invariant
            0 <= j <= 8,
            p.len() == fo + 64,
            le == le64_bytes(bit_len),
            forall|k: int| 0 <= k < 8 ==> #[trigger] p[p.len() - 8 + k] == le[k],
            forall|k: int| 0 <= k < 56 ==> block@[k] == p[fo + k],
            forall|k: int| 56 <= k < 56 + j ==> block@[k] == p[fo + k],
        decreases 8 - j,
    {
        block[56 + j] = ((bit_len >> (8 * j) as u64) & 0xff) as u8;
        assert(le[j as int] == ((bit_len >> (8 * j) as u64) & 0xff) as u8);
        assert(p[p.len() - 8 + j] == le[j as int]);
        j = j + 1;
    }
    proof {
        assert(block@ =~= p.subrange(fo, fo + 64));
        assert(block@.take(64) =~= block@);
        assert((fo + 64) / 64 == fo / 64 + 1);
        assert(p.len() as int / 64 == fo / 64 + 1);
    }
    md5_block(&block, &mut a0, &mut b0, &mut c0, &mut d0);
    let a = a0;
    let b = b0;
    let c = c0;
    let d = d0;
    out[0] = (a & 0xff) as u8;
    out[1] = ((a >> 8u32) & 0xff) as u8;
    out[2] = ((a >> 16u32) & 0xff) as u8;
    out[3] = ((a >> 24u32) & 0xff) as u8;
    out[4] = (b & 0xff) as u8;
    out[5] = ((b >> 8u32) & 0xff) as u8;
    out[6] = ((b >> 16u32) & 0xff) as u8;
    out[7] = ((b >> 24u32) & 0xff) as u8;
    out[8] = (c & 0xff) as u8;
    out[9] = ((c >> 8u32) & 0xff) as u8;
    out[10] = ((c >> 16u32) & 0xff) as u8;
    out[11] = ((c >> 24u32) & 0xff) as u8;
    out[12] = (d & 0xff) as u8;
    out[13] = ((d >> 8u32) & 0xff) as u8;
    out[14] = ((d >> 16u32) & 0xff) as u8;
    out[15] = ((d >> 24u32) & 0xff) as u8;
    assert(out@ =~= le32_bytes(a) + le32_bytes(b) + le32_bytes(c) + le32_bytes(d));
}

pub open spec fn hex_digit(v: int) -> u8 {
    if v < 10 {
        (48 + v) as u8
    } else {
        (87 + v) as u8
    }
}

pub open spec fn hex_pair(b: u8) -> Seq<u8> {
    seq![hex_digit((b >> 4u8) as int), hex_digit((b & 0x0f) as int)]
}

pub open spec fn hex_fn() -> spec_fn(u8) -> Seq<u8> {
    |b: u8| hex_pair(b)
}

/// Lower-case hexadecimal of `s`, two digits per byte.
pub open spec fn hex_text(s: Seq<u8>) -> Seq<u8> {
    per_byte(s, hex_fn())
}

/// Writes `input` in lower-case hexadecimal at the start of `out`.
pub fn hex_encode(input: &[u8], out: &mut [u8])
    requires
        old(out)@.len() >= 2 * input@.len(),
    ensures
        final(out)@.len() == old(out)@.len(),
        final(out)@.take(2 * input@.len() as int) == hex_text(input@),
        final(out)@.skip(2 * input@.len() as int) == old(out)@.skip(2 * input@.len() as int),
{
    let digits = "0123456789abcdef".as_bytes();
    proof {
        reveal_strlit("0123456789abcdef");
        broadcast use vstd::string::is_ascii_spec_bytes;
        assert(vstd::string::is_ascii("0123456789abcdef"));
        assert forall|v: int| 0 <= v < 16 implies #[trigger] digits@[v] == hex_digit(v) by {}
    }
    let ghost f = hex_fn();
    let mut i: usize = 0;
    assert(input@.take(0) =~= Seq::<u8>::empty());
    while i < input.len()
        invariant
            0 <= i <= input@.len(),
            out@.len() == old(out)@.len(),
            out@.len() >= 2 * input@.len(),
            digits@.len() == 16,
            forall|v: int| 0 <= v < 16 ==> #[trigger] digits@[v] == hex_digit(v),
            f == hex_fn(),
            out@.take(2 * i as int) == per_byte(input@.take(i as int), f),
            out@.skip(2 * i as int) == old(out)@.skip(2 * i as int),
        decreases input@.len() - i,
    {
        let b = input[i];
        let hi = (b >> 4u8) as usize;
        let lo = (b & 0x0f) as usize;
        assert(hi < 16) by (bit_vector)
            requires hi == (b >> 4u8) as usize;
        assert(lo < 16) by (bit_vector)
            requires lo == (b & 0x0f) as usize;
        let ghost before = out@;
        assert(2 * i + 1 < out.len());
        out[i * 2] = digits[hi];
        out[i * 2 + 1] = digits[lo];
        proof {
            assert(input@.take(i + 1).drop_last() =~= input@.take(i as int));
            assert(out@.take(2 * i + 2) =~= before.take(2 * i) + hex_pair(b));
            assert(out@.skip(2 * i + 2) =~= old(out)@.skip(2 * i + 2)) by {
                assert(before.skip(2 * i) =~= old(out)@.skip(2 * i));
                assert forall|k: int| 0 <= k < out@.len() - (2 * i + 2) implies #[trigger] out@.skip(2 * i + 2)[k] == old(out)@.skip(2 * i + 2)[k] by {
                    assert(before.skip(2 * i)[k + 2] == old(out)@.skip(2 * i)[k + 2]);
                }
            }
        }
        i = i + 1;
    }
    assert(input@.take(input@.len() as int) =~= input@);
}

pub type Pair = (Seq<u8>, Seq<u8>);

pub open spec fn pairs_of(ps: Seq<Param>) -> Seq<Pair> {
    ps.map_values(|p: Param| param_view(p))
}

/// The parameters a signed call is signed over: the endpoint's, the
/// common ones for `uid`, and the body when there is one.
pub open spec fn signed_pairs(endpoint: Seq<Pair>, uid: Seq<u8>, body: Option<Seq<u8>>) -> Seq<Pair> {
    endpoint + common_table(uid) + match body {
        Some(b) => seq![("body".spec_bytes(), b)],
        None => Seq::empty(),
    }
}

pub open spec fn pair_keys(ps: Seq<Pair>) -> Seq<Seq<u8>> {
    ps.map_values(|p: Pair| p.0)
}

/// The key order of a list of parameters.
pub open spec fn key_order_of(ps: Seq<Pair>) -> Seq<int> {
    choose|o: Seq<int>| is_key_order(pair_keys(ps), o)
}

/// The signing material over `ps` in their key order.
pub open spec fn material_of(method: Seq<u8>, ps: Seq<Pair>) -> Seq<u8> {
    let o = key_order_of(ps);
    GSN_SALT.spec_bytes() + method + flat(Seq::new(o.len(), |k: int| ps[o[k]].0 + url_encoded(ps[o[k]].1)))
        + GSN_SALT.spec_bytes()
}

/// The query string of `ps`: `?` before the first, `&` before the others.
pub open spec fn query_units(ps: Seq<Pair>) -> Seq<Seq<u8>> {
    Seq::new(ps.len(), |k: int| query_param(k == 0, ps[k].0, ps[k].1))
}

/// The signed URL of an API call: the endpoint's and the common
/// parameters, then `gsn`, the MD5 of the signing material in hex.
pub open spec fn api_url(method: Seq<u8>, path: Seq<u8>, endpoint: Seq<Pair>, uid: Seq<u8>, body: Option<Seq<u8>>) -> Seq<u8> {
    API_BASE.spec_bytes() + path + flat(query_units(endpoint + common_table(uid))) + query_param(
        false,
        "gsn".spec_bytes(),
        hex_text(md5_digest(material_of(method, signed_pairs(endpoint, uid, body)))),
    )
}

pub open spec fn opt_bytes(o: Option<&[u8]>) -> Option<Seq<u8>> {
    match o {
        Some(s) => Some(s@),
        None => None,
    }
}

/// The endpoint's parameters, the common ones and the body, in that order.
fn collect_params<'a>(endpoint_params: &[Param<'a>], common: &[Param<'a>; 34], body: Option<&'a [u8]>) -> (r: Vec<Param<'a>>)
    ensures
        pairs_of(r@) == pairs_of(endpoint_params@) + pairs_of(common@) + match opt_bytes(body) {
            Some(b) => seq![("body".spec_bytes(), b)],
            None => Seq::<Pair>::empty(),
        },
{
    let mut all: Vec<Param<'a>> = Vec::new();
    let mut k: usize = 0;
    while k < endpoint_params.len()
        invariant
            0 <= k <= endpoint_params@.len(),
            all@ == endpoint_params@.take(k as int),
        decreases endpoint_params@.len() - k,
    {
        all.push(endpoint_params[k]);
        assert(endpoint_params@.take(k + 1) =~= endpoint_params@.take(k as int).push(endpoint_params@[k as int]));
        k = k + 1;
    }
    assert(endpoint_params@.take(k as int) =~= endpoint_params@);
    let mut j: usize = 0;
    while j < 34
        invariant
            0 <= j <= 34,
            all@ == endpoint_params@ + common@.take(j as int),
        decreases 34 - j,
    {
        all.push(common[j]);
        assert(common@.take(j + 1) =~= common@.take(j as int).push(common@[j as int]));
        assert(endpoint_params@ + common@.take(j + 1) =~= (endpoint_params@ + common@.take(j as int)).push(common@[j as int]));
        j = j + 1;
    }
    assert(common@.take(34) =~= common@);
    let ghost before = all@;
    match body {
        Some(b) => {
            all.push(Param { key: "body".as_bytes(), value: b });
        },
        None => {},
    }
    assert(pairs_of(all@) =~= pairs_of(endpoint_params@) + pairs_of(common@) + match opt_bytes(body) {
        Some(b) => seq![("body".spec_bytes(), b)],
        None => Seq::<Pair>::empty(),
    });
    all
}

/// A parameter is signed as it is sent: in the signing material it is its
/// key followed by its value exactly as the query string writes it after
/// `key=`, and that text decodes back to the value.
pub proof fn law_parameter_signed_as_sent(ps: Seq<Param>, o: Seq<int>, k: int)
    requires
        0 <= k < o.len(),
        0 <= o[k] < ps.len(),
    ensures
        ({
            let key = ps[o[k]].key@;
            let value = ps[o[k]].value@;
            let unit = gsn_units(ps, o)[k];
            &&& unit.len() >= key.len()
            &&& unit.take(key.len() as int) == key
            &&& query_param(false, key, value) == "&".spec_bytes() + key + "=".spec_bytes() + unit.skip(key.len() as int)
            &&& crate::json_utils::url_decoded(unit.skip(key.len() as int)) == value
        }),
{
    let key = ps[o[k]].key@;
    let value = ps[o[k]].value@;
    let unit = gsn_units(ps, o)[k];
    assert(unit == key + url_encoded(value));
    assert(unit.take(key.len() as int) =~= key);
    assert(unit.skip(key.len() as int) =~= url_encoded(value));
    crate::json_utils::law_url_decoding_undoes_encoding(value);
}

/// The material a call's `gsn` is the MD5 of is the material the signer
/// writes: the salt, the method, the parameters in key order, the salt.
pub proof fn law_signed_material_is_written_material(method: Seq<u8>, ps: Seq<Param>, o: Seq<int>)
    requires
        is_key_order(keys_of(ps), o),
    ensures
        material_of(method, pairs_of(ps)) == gsn_material(method, ps, o),
        gsn_material(method, ps, o) == GSN_SALT.spec_bytes() + method + flat(gsn_units(ps, o)) + GSN_SALT.spec_bytes(),
{
    assert(pair_keys(pairs_of(ps)) =~= keys_of(ps));
    lemma_key_order_unique(keys_of(ps), o, key_order_of(pairs_of(ps)));
    assert(gsn_units(ps, o) =~= Seq::new(o.len(), |k: int| pairs_of(ps)[o[k]].0 + url_encoded(pairs_of(ps)[o[k]].1)));
}

/// The `gsn` of a call over `all`: the MD5 of its signing material in
/// hex, the material written through `scratch`; `None` when the material
/// does not fit.
fn signing_hex(method: &[u8], all: &[Param], scratch: &mut [u8]) -> (r: Option<[u8; 32]>)
    requires
        all@.len() <= 64,
        old(scratch)@.len() * 8 <= u64::MAX,
    ensures
        final(scratch)@.len() == old(scratch)@.len(),
        match r {
            Some(h) => material_of(method@, pairs_of(all@)).len() <= old(scratch)@.len() && h@ == hex_text(
                md5_digest(material_of(method@, pairs_of(all@))),
            ),
            None => material_of(method@, pairs_of(all@)).len() > old(scratch)@.len(),
        },
{
    let mut sc: usize = 0;
    let ok = append_sorted_gsn_material(scratch, &mut sc, method, all);
    proof {
        let o = choose|o: Seq<int>| #[trigger] gsn_written(old(scratch)@, 0, method@, all@, o, scratch@, sc as int, ok);
        assert(gsn_written(old(scratch)@, 0, method@, all@, o, scratch@, sc as int, ok));
        assert(pair_keys(pairs_of(all@)) =~= keys_of(all@));
        lemma_key_order_unique(keys_of(all@), o, key_order_of(pairs_of(all@)));
        assert(gsn_units(all@, o) =~= Seq::new(o.len(), |k: int| pairs_of(all@)[o[k]].0 + url_encoded(pairs_of(all@)[o[k]].1)));
        assert(gsn_material(method@, all@, o) =~= material_of(method@, pairs_of(all@)));
    }
    if !ok {
        return None;
    }
    let material = slice_subrange(scratch, 0, sc);
    assert(material@ =~= material_of(method@, pairs_of(all@)));
    let mut digest: [u8; 16] = [0; 16];
    md5(material, &mut digest);
    let mut gsn_hex: [u8; 32] = [0; 32];
    hex_encode(&digest, &mut gsn_hex);
    assert(gsn_hex@ =~= gsn_hex@.take(32));
    Some(gsn_hex)
}

/// Writes the query parameters `q`, the first after `?`, the others after
/// `&`.
fn write_query(out: &mut [u8], c: &mut usize, q: &[Param]) -> (ok: bool)
    requires
        *old(c) <= old(out)@.len(),
    ensures
        final(out)@.len() == old(out)@.len(),
        *final(c) <= final(out)@.len(),
        appended(old(out)@, *old(c) as int, flat(query_units(pairs_of(q@))), final(out)@, *final(c) as int, ok),
{
    let ghost qu = query_units(pairs_of(q@));
    let ghost d0 = out@;
    let ghost c0 = *c as int;
    let mut first = true;
    let mut i: usize = 0;
    proof {
        lemma_flat_empty(qu);
        lemma_appended_start(d0, c0);
    }
    while i < q.len()
        invariant
            0 <= i <= q@.len(),
            qu == query_units(pairs_of(q@)),
            first == (i == 0),
            d0 == old(out)@,
            c0 == *old(c) as int,
            0 <= c0 <= d0.len(),
            out@.len() == d0.len(),
            *c <= out@.len(),
            appended(d0, c0, flat(qu.take(i as int)), out@, *c as int, true),
        decreases q@.len() - i,
    {
        let ghost dm = out@;
        let ghost cm = *c as int;
        assert(qu[i as int] == query_param(i == 0, q@[i as int].key@, q@[i as int].value@));
        let good = write_query_param(out, c, &mut first, q[i]);
        if !good {
            proof {
                lemma_unit_fail(qu, i as int, d0, c0, dm, cm, out@, *c as int);
            }
            return false;
        }
        proof {
            lemma_unit_ok(qu, i as int, d0, c0, dm, cm, out@, *c as int);
        }
        i = i + 1;
    }
    proof {
        assert(qu.take(i as int) =~= qu);
    }
    true
}

/// Builds the signed URL of an API call into `out`, the signing material
/// going through `scratch`; its length, or `None` when the material or the
/// URL does not fit.
pub fn build_api_url_with_user(
    method: &[u8],
    path: &[u8],
    endpoint_params: &[Param],
    uid: &[u8],
    body: Option<&[u8]>,
    scratch: &mut [u8],
    out: &mut [u8],
) -> (r: Option<usize>)
    requires
        endpoint_params@.len() + 34 + (if body is Some { 1int } else { 0int }) <= 48,
        old(scratch)@.len() * 8 <= u64::MAX,
    ensures
        final(out)@.len() == old(out)@.len(),
        final(scratch)@.len() == old(scratch)@.len(),
        ({
            let m = material_of(method@, signed_pairs(pairs_of(endpoint_params@), uid@, opt_bytes(body)));
            let u = api_url(method@, path@, pairs_of(endpoint_params@), uid@, opt_bytes(body));
            match r {
                Some(n) => m.len() <= old(scratch)@.len() && n == u.len() && final(out)@.take(n as int) == u,
                None => m.len() > old(scratch)@.len() || u.len() > old(out)@.len(),
            }
        }),
{
    let ghost ep = pairs_of(endpoint_params@);
    let common = common_params(uid);
    let all = collect_params(endpoint_params, &common, body);
    assert(pairs_of(all@) =~= signed_pairs(ep, uid@, opt_bytes(body)));
    let gsn_hex = match signing_hex(method, all.as_slice(), scratch) {
        Some(h) => h,
        None => return None,
    };
    assert(pairs_of(common@) =~= common_table(uid@));
    let q = slice_subrange(all.as_slice(), 0, endpoint_params.len() + 34);
    assert(pairs_of(q@) =~= pairs_of(all@).subrange(0, endpoint_params@.len() as int + 34));
    assert(pairs_of(q@) =~= ep + common_table(uid@));
    let ghost head = API_BASE.spec_bytes() + path@;
    let ghost qt = flat(query_units(pairs_of(q@)));
    let ghost gsn = query_param(false, "gsn".spec_bytes(), gsn_hex@);
    let ghost d0 = out@;
    assert(api_url(method@, path@, ep, uid@, opt_bytes(body)) =~= head + qt + gsn);
    let mut c: usize = 0;
    let ps = [Piece::Text(API_BASE), Piece::Raw(path)];
    proof {
        reveal_with_fuel(pieces_bytes, 3);
        assert(pieces_bytes(ps@) =~= head);
    }
    if !put_pieces(out, &mut c, &ps) {
        proof {
            lemma_appended_fail_extend(d0, 0, head, out@, c as int, qt + gsn);
            assert(head + (qt + gsn) =~= head + qt + gsn);
        }
        return None;
    }
    let ghost dh = out@;
    let ghost ch = c as int;
    let good = write_query(out, &mut c, q);
    proof {
        lemma_appended_then(d0, 0, head, dh, ch, qt, out@, c as int, good);
    }
    if !good {
        proof {
            lemma_appended_fail_extend(d0, 0, head + qt, out@, c as int, gsn);
        }
        return None;
    }
    let ghost dq = out@;
    let ghost cq = c as int;
    let mut first = false;
    let good2 = write_query_param(out, &mut c, &mut first, Param { key: "gsn".as_bytes(), value: gsn_hex.as_slice() });
    proof {
        lemma_appended_then(d0, 0, head + qt, dq, cq, gsn, out@, c as int, good2);
    }
    if !good2 {
        return None;
    }
    Some(c)
}


/// The id inside an `mhr:` manga id, when it has one.
pub fn manga_part(manga_id: &[u8]) -> (r: Option<&[u8]>)
    ensures
        match r {
            Some(v) => crate::sources::site::id_rest(manga_id@, "mhr:".spec_bytes()) == Some(v@),
            None => crate::sources::site::id_rest(manga_id@, "mhr:".spec_bytes()) is None,
        },
{
    crate::sources::site::rest_after(manga_id, "mhr:".as_bytes())
}

/// The key of a chapter: its id after `mhrch:`, or the id as it is.
pub open spec fn chapter_key_of(id: Seq<u8>) -> Seq<u8> {
    match crate::sources::site::id_rest(id, "mhrch:".spec_bytes()) {
        Some(v) => v,
        None => id,
    }
}

pub fn chapter_key(chapter_id: &[u8]) -> (r: &[u8])
    ensures
        r@ == chapter_key_of(chapter_id@),
{
    match crate::sources::site::rest_after(chapter_id, "mhrch:".as_bytes()) {
        Some(v) => v,
        None => chapter_id,
    }
}

} // verus!
