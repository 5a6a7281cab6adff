//! The HANMAN18 source: link paths, numbers, and the Base64 its reader
//! pages wrap their image lists in.
use vstd::prelude::*;
use vstd::string::StringSliceAdditionalSpecFns;
use crate::json_utils::escaped;
use crate::pieces::{pieces_bytes, put_pieces_then, Piece};
use crate::sources::bh3::{opt_view, or_else};
use crate::sources::mh1234::quoted_or_empty;
use crate::sources::site::path_of;
use crate::sources::text::{digits_fit, parse_decimal, trimmed};

verus! {

pub const BASE_URL: &'static str = "https://hanman18.com";

/// Strips leading and trailing spaces, tabs, CR and LF.
pub fn trim_ascii(bytes: &[u8]) -> (r: &[u8])
    ensures
        r@ == trimmed(bytes@),
{
    crate::sources::dm5::trim_ascii(bytes)
}

/// The path of a link.
pub fn path_from_href(href: &[u8]) -> (r: Option<&[u8]>)
    ensures
        match r {
            Some(v) => path_of(href@) == Some(v@),
            None => path_of(href@) is None,
        },
{
    crate::sources::site::path_from_href(href)
}

/// A non-empty run of decimal digits read as a number.
pub fn parse_usize(bytes: &[u8]) -> (r: Option<usize>)
    requires
        digits_fit(bytes@, usize::MAX as nat),
    ensures
        match r {
            Some(n) => parse_decimal(bytes@) == Some(n as nat),
            None => parse_decimal(bytes@) is None,
        },
{
    crate::sources::text::parse_decimal_exec(bytes)
}

/// The six-bit value of a Base64 letter, or -1.
pub open spec fn b64_value(ch: u8) -> int {
    if 65 <= ch <= 90 {
        ch - 65
    } else if 97 <= ch <= 122 {
        ch - 97 + 26
    } else if 48 <= ch <= 57 {
        ch - 48 + 52
    } else if ch == 43 {
        62
    } else if ch == 47 {
        63
    } else {
        -1
    }
}

/// Bytes Base64 text skips: whitespace and padding.
pub open spec fn b64_skipped(ch: u8) -> bool {
    ch == 32 || ch == 10 || ch == 13 || ch == 9 || ch == 61
}

/// The six-bit values of Base64 text, skipped bytes left out; `None` at a
/// byte that is neither.
pub open spec fn sextets(s: Seq<u8>) -> Option<Seq<u8>>
    decreases s.len(),
{
    if s.len() == 0 {
        Some(Seq::empty())
    } else {
        match sextets(s.drop_last()) {
            None => None,
            Some(v) => if b64_skipped(s.last()) {
                Some(v)
            } else if b64_value(s.last()) < 0 {
                None
            } else {
                Some(v.push(b64_value(s.last()) as u8))
            },
        }
    }
}

/// The bytes six-bit values decode to: three per full group of four, and
/// one or two for a last group of two or three.
pub open spec fn decode_groups(v: Seq<u8>) -> Seq<u8>
    decreases v.len(),
{
    if v.len() >= 4 {
        seq![v[0] << 2u8 | v[1] >> 4u8, v[1] << 4u8 | v[2] >> 2u8, v[2] << 6u8 | v[3]] + decode_groups(v.skip(4))
    } else if v.len() == 3 {
        seq![v[0] << 2u8 | v[1] >> 4u8, v[1] << 4u8 | v[2] >> 2u8]
    } else if v.len() == 2 {
        seq![v[0] << 2u8 | v[1] >> 4u8]
    } else {
        Seq::empty()
    }
}

/// What Base64 text decodes to.
pub open spec fn base64_of(s: Seq<u8>) -> Option<Seq<u8>> {
    match sextets(s) {
        None => None,
        Some(v) => Some(decode_groups(v)),
    }
}

proof fn lemma_decode_append(v: Seq<u8>, g: Seq<u8>)
    requires
        v.len() % 4 == 0,
        g.len() <= 4,
    ensures
        decode_groups(v + g) == decode_groups(v) + decode_groups(g),
    decreases v.len(),
{
    if v.len() == 0 {
        assert(v + g =~= g);
        assert(decode_groups(v) =~= Seq::<u8>::empty());
        assert(decode_groups(v) + decode_groups(g) =~= decode_groups(g));
    } else {
        assert((v + g).skip(4) =~= v.skip(4) + g);
        lemma_decode_append(v.skip(4), g);
        assert((v + g)[0] == v[0] && (v + g)[1] == v[1] && (v + g)[2] == v[2] && (v + g)[3] == v[3]);
    }
}

/// Decodes Base64 `input` into `out` and returns the length; `None` at a
/// byte that is not Base64 or when the bytes do not fit.
pub fn base64_decode(input: &[u8], out: &mut [u8]) -> (r: Option<usize>)
    ensures
        final(out)@.len() == old(out)@.len(),
        match r {
            Some(n) => n <= final(out)@.len() && base64_of(input@) == Some(final(out)@.take(n as int)),
            None => base64_of(input@) is None || base64_of(input@).unwrap().len() > old(out)@.len(),
        },
{
    let mut p: usize = 0;
    let mut b: [u8; 4] = [0; 4];
    let mut bc: usize = 0;
    let mut i: usize = 0;
    let ghost mut full: Seq<u8> = Seq::empty();
    assert(input@.take(0) =~= Seq::<u8>::empty());
    while i < input.len()
        invariant
            0 <= i <= input@.len(),
            bc < 4,
            full.len() % 4 == 0,
            sextets(input@.take(i as int)) == Some(full + b@.take(bc as int)),
            forall|k: int| 0 <= k < bc ==> b@[k] < 64,
            p == decode_groups(full).len(),
            p <= out@.len(),
            out@.len() == old(out)@.len(),
            out@.take(p as int) == decode_groups(full),
        decreases input@.len() - i,
    {
        let ch = input[i];
        assert(input@.take(i + 1).drop_last() =~= input@.take(i as int));
        if ch == 32 || ch == 10 || ch == 13 || ch == 9 || ch == 61 {
            i = i + 1;
            continue;
        }
        let v: u8 = if ch >= 65 && ch <= 90 {
            ch - 65
        } else if ch >= 97 && ch <= 122 {
            ch - 97 + 26
        } else if ch >= 48 && ch <= 57 {
            ch - 48 + 52
        } else if ch == 43 {
            62
        } else if ch == 47 {
            63
        } else {
            proof {
                lemma_sextets_none_extends(input@, i + 1);
            }
            return None;
        };
        let ghost prev = b@.take(bc as int);
        b[bc] = v;
        bc = bc + 1;
        assert(b@.take(bc as int) =~= prev.push(v));
        assert(full + b@.take(bc as int) =~= (full + prev).push(v));
        assert(sextets(input@.take(i + 1)) == Some(full + b@.take(bc as int)));
        if bc == 4 {
            let ghost group = b@;
            proof {
                assert(b@.take(4) =~= group);
                lemma_decode_append(full, group);
                assert(group.len() == 4);
                assert(decode_groups(group.skip(4)) =~= Seq::<u8>::empty()) by {
                    assert(group.skip(4) =~= Seq::<u8>::empty());
                }
                assert(decode_groups(group) =~= seq![
                    group[0] << 2u8 | group[1] >> 4u8,
                    group[1] << 4u8 | group[2] >> 2u8,
                    group[2] << 6u8 | group[3],
                ]);
            }
            if out.len() < 3 || p > out.len() - 3 {
                proof {
                    lemma_sextets_prefix_len_any(input@, i + 1, full + group);
                    lemma_decode_len(full);
                    let w = sextets(input@).unwrap();
                    if sextets(input@) is Some {
                        lemma_decode_len(w);
                        lemma_decoded_len_mono(full.len() + 4, w.len());
                        assert(decoded_len(full.len() + 4) == decoded_len(full.len()) + 3) by {
                            assert((full.len() + 4) / 4 == full.len() / 4 + 1);
                        }
                    }
                }
                return None;
            }
            let ghost before = out@;
            out[p] = b[0] << 2u8 | b[1] >> 4u8;
            out[p + 1] = b[1] << 4u8 | b[2] >> 2u8;
            out[p + 2] = b[2] << 6u8 | b[3];
            proof {
                assert(out@.take(p + 3) =~= before.take(p as int) + decode_groups(group));
                full = full + group;
                assert(b@.take(0) =~= Seq::<u8>::empty());
                assert(full + b@.take(0) =~= full);
            }
            p = p + 3;
            bc = 0;
        }
        i = i + 1;
    }
    assert(input@.take(input@.len() as int) =~= input@);
    let ghost rest = b@.take(bc as int);
    proof {
        lemma_decode_append(full, rest);
    }
    if bc >= 2 {
        if p >= out.len() {
            return None;
        }
        out[p] = b[0] << 2u8 | b[1] >> 4u8;
        p = p + 1;
    }
    if bc >= 3 {
        if p >= out.len() {
            return None;
        }
        out[p] = b[1] << 4u8 | b[2] >> 2u8;
        p = p + 1;
    }
    assert(out@.take(p as int) =~= decode_groups(full + rest));
    Some(p)
}

/// Once the values of a prefix are `None`, those of the whole are.
/// The Base64 letter of a six-bit value.
pub open spec fn b64_letter(v: u8) -> u8 {
    if v < 26 {
        (65 + v) as u8
    } else if v < 52 {
        (97 + v - 26) as u8
    } else if v < 62 {
        (48 + v - 52) as u8
    } else if v == 62 {
        43
    } else {
        47
    }
}

/// The six-bit values of one to three bytes: two, three or four of them.
pub open spec fn group_sextets(x: Seq<u8>) -> Seq<u8> {
    let a = x[0];
    let b: u8 = if x.len() > 1 { x[1] } else { 0 };
    let c: u8 = if x.len() > 2 { x[2] } else { 0 };
    seq![a >> 2u8, (a & 3u8) << 4u8 | b >> 4u8, (b & 15u8) << 2u8 | c >> 6u8, c & 63u8].take(x.len() + 1int)
}

/// The six-bit values of bytes, three bytes at a time.
pub open spec fn sextets_of(x: Seq<u8>) -> Seq<u8>
    decreases x.len(),
{
    if x.len() == 0 {
        Seq::empty()
    } else if x.len() > 3 {
        group_sextets(x.take(3)) + sextets_of(x.skip(3))
    } else {
        group_sextets(x)
    }
}

/// The standard Base64 encoding of bytes (RFC 4648), with `=` padding.
pub open spec fn base64_encoding(x: Seq<u8>) -> Seq<u8> {
    let pad = if x.len() % 3 == 1 {
        "==".spec_bytes()
    } else if x.len() % 3 == 2 {
        "=".spec_bytes()
    } else {
        Seq::empty()
    };
    sextets_of(x).map_values(|v: u8| b64_letter(v)) + pad
}

proof fn lemma_letter_value(v: u8)
    requires
        v < 64,
    ensures
        b64_value(b64_letter(v)) == v,
        !b64_skipped(b64_letter(v)),
{
}

proof fn lemma_sextets_letters(v: Seq<u8>)
    requires
        forall|i: int| 0 <= i < v.len() ==> v[i] < 64,
    ensures
        sextets(v.map_values(|s: u8| b64_letter(s))) == Some(v),
    decreases v.len(),
{
    let l = v.map_values(|s: u8| b64_letter(s));
    if v.len() > 0 {
        assert(l.drop_last() =~= v.drop_last().map_values(|s: u8| b64_letter(s)));
        lemma_sextets_letters(v.drop_last());
        lemma_letter_value(v.last());
        assert(v.drop_last().push(v.last()) =~= v);
    } else {
        assert(l =~= Seq::<u8>::empty());
    }
}

proof fn lemma_sextets_padding(s: Seq<u8>, pad: Seq<u8>)
    requires
        forall|i: int| 0 <= i < pad.len() ==> pad[i] == 61,
    ensures
        sextets(s + pad) == sextets(s),
    decreases pad.len(),
{
    if pad.len() == 0 {
        assert(s + pad =~= s);
    } else {
        assert((s + pad).drop_last() =~= s + pad.drop_last());
        lemma_sextets_padding(s, pad.drop_last());
    }
}

proof fn lemma_group_bytes(a: u8, b: u8, c: u8)
    ensures
        a >> 2u8 < 64,
        (a & 3u8) << 4u8 | b >> 4u8 < 64,
        (b & 15u8) << 2u8 | c >> 6u8 < 64,
        c & 63u8 < 64,
        (a >> 2u8) << 2u8 | ((a & 3u8) << 4u8 | b >> 4u8) >> 4u8 == a,
        ((a & 3u8) << 4u8 | b >> 4u8) << 4u8 | ((b & 15u8) << 2u8 | c >> 6u8) >> 2u8 == b,
        ((b & 15u8) << 2u8 | c >> 6u8) << 6u8 | (c & 63u8) == c,
{
    assert(a >> 2u8 < 64 && (a & 3u8) << 4u8 | b >> 4u8 < 64 && (b & 15u8) << 2u8 | c >> 6u8 < 64 && c & 63u8 < 64
        && (a >> 2u8) << 2u8 | ((a & 3u8) << 4u8 | b >> 4u8) >> 4u8 == a && ((a & 3u8) << 4u8 | b >> 4u8) << 4u8 | (
    (b & 15u8) << 2u8 | c >> 6u8) >> 2u8 == b && ((b & 15u8) << 2u8 | c >> 6u8) << 6u8 | (c & 63u8) == c) by (bit_vector);
}

proof fn lemma_sextets_of(x: Seq<u8>)
    ensures
        forall|i: int| 0 <= i < sextets_of(x).len() ==> sextets_of(x)[i] < 64,
        decode_groups(sextets_of(x)) == x,
        sextets_of(x).len() == (if x.len() % 3 == 0 { x.len() / 3 * 4 } else { x.len() / 3 * 4 + x.len() % 3 + 1 }),
    decreases x.len(),
{
    if x.len() == 0 {
        assert(decode_groups(Seq::<u8>::empty()) =~= Seq::<u8>::empty());
    } else {
        let n: int = if x.len() > 3 { 3 } else { x.len() as int };
        let g = x.take(n);
        let a = g[0];
        let b: u8 = if g.len() > 1 { g[1] } else { 0 };
        let c: u8 = if g.len() > 2 { g[2] } else { 0 };
        lemma_group_bytes(a, b, c);
        let gs = group_sextets(g);
        assert(forall|i: int| 0 <= i < gs.len() ==> gs[i] < 64);
        if x.len() > 3 {
            lemma_sextets_of(x.skip(3));
            let rest = sextets_of(x.skip(3));
            let all = gs + rest;
            assert(all =~= sextets_of(x));
            assert(all.skip(4) =~= rest);
            assert(decode_groups(all) == seq![all[0] << 2u8 | all[1] >> 4u8, all[1] << 4u8 | all[2] >> 2u8, all[2]
                << 6u8 | all[3]] + decode_groups(all.skip(4)));
            assert(seq![a, b, c] + x.skip(3) =~= x);
        } else if x.len() == 3 {
            assert(decode_groups(gs) == seq![gs[0] << 2u8 | gs[1] >> 4u8, gs[1] << 4u8 | gs[2] >> 2u8, gs[2] << 6u8
                | gs[3]] + decode_groups(gs.skip(4)));
            assert(decode_groups(gs.skip(4)) =~= Seq::<u8>::empty());
            assert(seq![a, b, c] =~= x);
        } else if x.len() == 2 {
            assert(seq![a, b] =~= x);
        } else {
            assert(seq![a] =~= x);
        }
    }
}

/// Base64 text decodes back to the bytes it encodes: for every `x`,
/// decoding the standard encoding of `x` gives `x`.
pub proof fn law_base64_round_trip(x: Seq<u8>)
    ensures
        base64_of(base64_encoding(x)) == Some(x),
{
    lemma_sextets_of(x);
    let v = sextets_of(x);
    let pad = if x.len() % 3 == 1 {
        "==".spec_bytes()
    } else if x.len() % 3 == 2 {
        "=".spec_bytes()
    } else {
        Seq::empty()
    };
    reveal_strlit("==");
    reveal_strlit("=");
    broadcast use vstd::string::is_ascii_spec_bytes;
    assert(vstd::string::is_ascii("=="));
    assert(vstd::string::is_ascii("="));
    assert(forall|i: int| 0 <= i < pad.len() ==> pad[i] == 61);
    lemma_sextets_letters(v);
    lemma_sextets_padding(v.map_values(|s: u8| b64_letter(s)), pad);
}

proof fn lemma_sextets_none_extends(s: Seq<u8>, k: int)
    requires
        0 <= k <= s.len(),
        sextets(s.take(k)) is None,
    ensures
        sextets(s) is None,
    decreases s.len() - k,
{
    if k < s.len() {
        assert(s.take(k + 1).drop_last() =~= s.take(k));
        lemma_sextets_none_extends(s, k + 1);
    } else {
        assert(s.take(k) =~= s);
    }
}

/// How many bytes `n` six-bit values decode to.
pub open spec fn decoded_len(n: nat) -> nat {
    (n / 4) * 3 + if n % 4 >= 2 {
        (n % 4 - 1) as nat
    } else {
        0
    }
}

proof fn lemma_decode_len(v: Seq<u8>)
    ensures
        decode_groups(v).len() == decoded_len(v.len()),
    decreases v.len(),
{
    if v.len() >= 4 {
        lemma_decode_len(v.skip(4));
        assert(v.len() / 4 == v.skip(4).len() / 4 + 1);
        assert(v.len() % 4 == v.skip(4).len() % 4);
    }
}

proof fn lemma_decoded_len_mono(a: nat, b: nat)
    requires
        a <= b,
    ensures
        decoded_len(a) <= decoded_len(b),
    decreases b - a,
{
    if a < b {
        lemma_decoded_len_mono(a, (b - 1) as nat);
        let c = (b - 1) as nat;
        if c % 4 == 3 {
            assert(b / 4 == c / 4 + 1 && b % 4 == 0);
        } else {
            assert(b / 4 == c / 4 && b % 4 == c % 4 + 1);
        }
    }
}

proof fn lemma_sextets_prefix_len_any(s: Seq<u8>, k: int, v: Seq<u8>)
    requires
        0 <= k <= s.len(),
        sextets(s.take(k)) == Some(v),
    ensures
        match sextets(s) {
            Some(w) => v.len() <= w.len(),
            None => true,
        },
    decreases s.len() - k,
{
    if k == s.len() {
        assert(s.take(k) =~= s);
    } else {
        assert(s.take(k + 1).drop_last() =~= s.take(k));
        match sextets(s.take(k + 1)) {
            None => {
                lemma_sextets_none_extends(s, k + 1);
            },
            Some(v2) => {
                lemma_sextets_prefix_len_any(s, k + 1, v2);
            },
        }
    }
}


pub const CARD_TAIL: &'static str =
    "\"},\"authors\":[],\"status\":\"unknown\",\"contentRating\":\"nsfw\",\"description\":\"\",\"sourceTags\":[\"hanman18\"]}";

/// The path of a manga: its id after `manga:`.
pub fn manga_path(manga_id: &[u8]) -> (r: Option<&[u8]>)
    ensures
        match r {
            Some(v) => crate::sources::site::id_rest(manga_id@, "manga:".spec_bytes()) == Some(v@),
            None => crate::sources::site::id_rest(manga_id@, "manga:".spec_bytes()) is None,
        },
{
    crate::sources::site::rest_after(manga_id, "manga:".as_bytes())
}

/// Whether an info label is the author's.
pub fn is_author_label(label: &[u8]) -> (r: bool)
    ensures
        r == crate::json_utils::find(label@, "Author".spec_bytes()) is Some,
{
    crate::json_utils::contains_bytes(label, "Author".as_bytes())
}

/// Whether an info label is the status's.
pub fn is_status_label(label: &[u8]) -> (r: bool)
    ensures
        r == crate::json_utils::find(label@, "Status".spec_bytes()) is Some,
{
    crate::json_utils::contains_bytes(label, "Status".as_bytes())
}

/// The author an info value names: the value trimmed and cut to 256
/// bytes; none when it is empty or still says `Updating`.
pub open spec fn author_value_of(text: Seq<u8>) -> Option<Seq<u8>> {
    let t = trimmed(text);
    if crate::json_utils::find(t, "Updating".spec_bytes()) is Some || t.len() == 0 {
        None
    } else if t.len() <= 256 {
        Some(t)
    } else {
        Some(t.take(256))
    }
}

pub fn author_value(text: &[u8]) -> (r: Option<&[u8]>)
    ensures
        match r {
            Some(v) => author_value_of(text@) == Some(v@),
            None => author_value_of(text@) is None,
        },
{
    let t = trim_ascii(text);
    if crate::json_utils::contains_bytes(t, "Updating".as_bytes()) || t.len() == 0 {
        return None;
    }
    if t.len() <= 256 {
        Some(t)
    } else {
        let v = vstd::slice::slice_subrange(t, 0, 256);
        assert(v@ =~= t@.take(256));
        Some(v)
    }
}

/// The status an info value names, if any.
pub open spec fn status_value_of(v: Seq<u8>) -> Option<Seq<u8>> {
    if crate::json_utils::find(v, "Completed".spec_bytes()) is Some {
        Some("completed".spec_bytes())
    } else if crate::json_utils::find(v, "On Going".spec_bytes()) is Some
        || crate::json_utils::find(v, "Ongoing".spec_bytes()) is Some {
        Some("ongoing".spec_bytes())
    } else {
        None
    }
}

/// Whether `word` stands somewhere in `v`.
pub open spec fn mentions(v: Seq<u8>, word: Seq<u8>) -> bool {
    exists|i: int| crate::json_utils::matches_at(v, word, i)
}

proof fn lemma_find_mentions(v: Seq<u8>, word: Seq<u8>)
    requires
        word.len() > 0,
    ensures
        (crate::json_utils::find(v, word) is Some) == mentions(v, word),
{
    crate::json_utils::lemma_find_from_spec(v, word, 0);
    if mentions(v, word) {
        let i = choose|i: int| crate::json_utils::matches_at(v, word, i);
        assert(0 <= i);
    }
}

/// A status that says "Completed" is reported as completed; one that says
/// "Ongoing" or "On Going" and not "Completed" as ongoing; any other gives
/// no status.
pub proof fn law_status_words(v: Seq<u8>)
    ensures
        mentions(v, "Completed".spec_bytes()) ==> status_value_of(v) == Some("completed".spec_bytes()),
        !mentions(v, "Completed".spec_bytes()) && (mentions(v, "Ongoing".spec_bytes()) || mentions(
            v,
            "On Going".spec_bytes(),
        )) ==> status_value_of(v) == Some("ongoing".spec_bytes()),
        !mentions(v, "Completed".spec_bytes()) && !mentions(v, "Ongoing".spec_bytes()) && !mentions(
            v,
            "On Going".spec_bytes(),
        ) ==> status_value_of(v) is None,
{
    reveal_strlit("Completed");
    reveal_strlit("Ongoing");
    reveal_strlit("On Going");
    broadcast use vstd::string::is_ascii_spec_bytes;
    assert(vstd::string::is_ascii("Completed"));
    assert(vstd::string::is_ascii("Ongoing"));
    assert(vstd::string::is_ascii("On Going"));
    lemma_find_mentions(v, "Completed".spec_bytes());
    lemma_find_mentions(v, "Ongoing".spec_bytes());
    lemma_find_mentions(v, "On Going".spec_bytes());
}

pub fn status_value(v: &[u8]) -> (r: Option<&'static str>)
    ensures
        match r {
            Some(w) => status_value_of(v@) == Some(w.spec_bytes()),
            None => status_value_of(v@) is None,
        },
{
    if crate::json_utils::contains_bytes(v, "Completed".as_bytes()) {
        Some("completed")
    } else if crate::json_utils::contains_bytes(v, "On Going".as_bytes())
        || crate::json_utils::contains_bytes(v, "Ongoing".as_bytes()) {
        Some("ongoing")
    } else {
        None
    }
}

/// The manga payload of the manga at `path` (its page at `url`): the
/// selected title, description and cover, the author (when one was found)
/// and the status word.
pub open spec fn detail_json(
    path: Seq<u8>,
    url: Seq<u8>,
    title: Option<Seq<u8>>,
    desc: Option<Seq<u8>>,
    cover: Option<Seq<u8>>,
    author: Seq<u8>,
    status: Seq<u8>,
) -> Seq<u8> {
    "{\"manga\":{\"id\":\"manga:".spec_bytes() + escaped(path) + "\",\"title\":\"".spec_bytes() + escaped(
        or_else(title, path),
    ) + "\",\"alternateTitles\":[],\"description\":\"".spec_bytes() + escaped(or_else(desc, Seq::empty()))
        + "\",\"cover\":{\"kind\":\"url\",\"url\":\"".spec_bytes() + escaped(or_else(cover, Seq::empty()))
        + "\"},\"authors\":[".spec_bytes() + quoted_or_empty(author)
        + "],\"artists\":[],\"status\":\"".spec_bytes() + status
        + "\",\"contentRating\":\"nsfw\",\"language\":\"zh\",\"tags\":[],\"links\":[{\"kind\":\"source\",\"url\":\"".spec_bytes()
        + escaped(url) + "\"}]}}".spec_bytes()
}

fn or_empty<'a>(v: Option<&'a [u8]>) -> (r: &'a [u8])
    ensures
        r@ == or_else(opt_view(v), Seq::empty()),
{
    match v {
        Some(s) => s,
        None => {
            proof {
                reveal_strlit("");
            }
            "".as_bytes()
        },
    }
}

/// Writes the manga payload of the manga at `path` (its page at `url`);
/// its length, or `None` when it does not fit.
#[verifier::spinoff_prover]
#[verifier::rlimit(40)]
pub fn detail_payload(
    path: &[u8],
    url: &[u8],
    title: Option<&[u8]>,
    desc: Option<&[u8]>,
    cover: Option<&[u8]>,
    author: &[u8],
    status: &str,
    payload: &mut [u8],
) -> (r: Option<usize>)
    ensures
        final(payload)@.len() == old(payload)@.len(),
        match r {
            Some(n) => n == detail_json(path@, url@, opt_view(title), opt_view(desc), opt_view(cover), author@, status.spec_bytes()).len()
                && final(payload)@.take(n as int) == detail_json(path@, url@, opt_view(title), opt_view(desc), opt_view(cover), author@, status.spec_bytes()),
            None => detail_json(path@, url@, opt_view(title), opt_view(desc), opt_view(cover), author@, status.spec_bytes()).len()
                > old(payload)@.len(),
        },
{
    proof {
        reveal_strlit("");
        reveal_strlit("\"");
    }
    let t = match title {
        Some(v) => v,
        None => path,
    };
    let qa: &str = if author.len() > 0 { "\"" } else { "" };
    let a = [
        Piece::Text("{\"manga\":{\"id\":\"manga:"),
        Piece::Escaped(path),
        Piece::Text("\",\"title\":\""),
        Piece::Escaped(t),
        Piece::Text("\",\"alternateTitles\":[],\"description\":\""),
        Piece::Escaped(or_empty(desc)),
        Piece::Text("\",\"cover\":{\"kind\":\"url\",\"url\":\""),
        Piece::Escaped(or_empty(cover)),
    ];
    let z = [
        Piece::Text("\"},\"authors\":["),
        Piece::Text(qa),
        Piece::Escaped(author),
        Piece::Text(qa),
        Piece::Text("],\"artists\":[],\"status\":\""),
        Piece::Text(status),
        Piece::Text("\",\"contentRating\":\"nsfw\",\"language\":\"zh\",\"tags\":[],\"links\":[{\"kind\":\"source\",\"url\":\""),
        Piece::Escaped(url),
        Piece::Text("\"}]}}"),
    ];
    proof {
        let ghost e: Seq<u8> = Seq::empty();
        assert(escaped(e) =~= e) by {
            reveal_with_fuel(crate::json_utils::per_byte, 1);
        }
        assert(qa.spec_bytes() + escaped(author@) + qa.spec_bytes() =~= quoted_or_empty(author@));
        let ghost ua = pieces_bytes(a@);
        let ghost uz = pieces_bytes(z@);
        assert(ua =~= "{\"manga\":{\"id\":\"manga:".spec_bytes() + escaped(path@) + "\",\"title\":\"".spec_bytes()
            + escaped(t@) + "\",\"alternateTitles\":[],\"description\":\"".spec_bytes() + escaped(or_else(opt_view(desc), Seq::empty()))
            + "\",\"cover\":{\"kind\":\"url\",\"url\":\"".spec_bytes() + escaped(or_else(opt_view(cover), Seq::empty()))) by {
            reveal_with_fuel(pieces_bytes, 9);
        }
        assert(uz =~= "\"},\"authors\":[".spec_bytes() + quoted_or_empty(author@) + "],\"artists\":[],\"status\":\"".spec_bytes()
            + status.spec_bytes() + "\",\"contentRating\":\"nsfw\",\"language\":\"zh\",\"tags\":[],\"links\":[{\"kind\":\"source\",\"url\":\"".spec_bytes()
            + escaped(url@) + "\"}]}}".spec_bytes()) by {
            reveal_with_fuel(pieces_bytes, 10);
        }
        assert(ua + uz =~= detail_json(path@, url@, opt_view(title), opt_view(desc), opt_view(cover), author@, status.spec_bytes()));
    }
    let mut c: usize = 0;
    if !put_pieces_then(payload, &mut c, &a, &z) {
        return None;
    }
    Some(c)
}


/// The URL of list page `page`: a search for `query`, or the list by
/// views.
pub open spec fn list_url_of(page: nat, query: Option<Seq<u8>>) -> Seq<u8> {
    BASE_URL.spec_bytes() + "/list-manga/".spec_bytes() + crate::json_utils::decimal(page) + match query {
        Some(q) => "?search=".spec_bytes() + crate::json_utils::url_encoded(q),
        None => "?order_by=views".spec_bytes(),
    }
}

/// Writes the URL of list page `page` into `out`; its length, or `None`
/// when it does not fit.
pub fn list_url(page: usize, query: Option<&[u8]>, out: &mut [u8]) -> (r: Option<usize>)
    ensures
        final(out)@.len() == old(out)@.len(),
        match r {
            Some(n) => n == list_url_of(page as nat, opt_view(query)).len() && final(out)@.take(n as int)
                == list_url_of(page as nat, opt_view(query)),
            None => list_url_of(page as nat, opt_view(query)).len() > old(out)@.len(),
        },
{
    let a = [Piece::Text(BASE_URL), Piece::Text("/list-manga/"), Piece::Number(page)];
    let z = match query {
        Some(q) => [Piece::Text("?search="), Piece::UrlEncoded(q)],
        None => [Piece::Text("?order_by=views"), Piece::Raw("".as_bytes())],
    };
    proof {
        reveal_strlit("");
        reveal_with_fuel(pieces_bytes, 4);
        assert(pieces_bytes(a@) + pieces_bytes(z@) =~= list_url_of(page as nat, opt_view(query)));
    }
    let mut c: usize = 0;
    if !put_pieces_then(out, &mut c, &a, &z) {
        return None;
    }
    Some(c)
}

} // verus!
