//! Building the JSON descriptions of HTTP requests a source sends through
//! the host, and reading the host's JSON reply back into a body.
use vstd::prelude::*;
use vstd::string::StringSliceAdditionalSpecFns;
use vstd::slice::slice_subrange;
use crate::json_utils::{put_escaped, put_str,
    all_hex, append_json_escaped, hex_value, appended, escape_fn, escaped, find, find_subslice, hex_number,
    is_digit, json_number_value, lemma_appended_fail_extend, lemma_appended_then,
    lemma_per_byte_appended, lemma_write_bytes_appended, matches_at, splice, utf8_encode,
    write_bytes, contains_bytes, extract_json_number, encode_utf8,
};

verus! {

/// Why fetching a page failed.
#[derive(Copy, Clone, Debug, Eq, PartialEq, Structural)]
pub enum FetchError {
    Network,
    NotFound,
    RateLimit,
    ClientError,
    ServerError,
}

/// Error code and message a fetch failure is reported with.
pub open spec fn fetch_error_text(e: FetchError) -> (Seq<char>, Seq<char>) {
    match e {
        FetchError::Network => ("network_error"@, "connection or timeout failure"@),
        FetchError::NotFound => ("not_found"@, "resource not found"@),
        FetchError::RateLimit => ("rate_limited"@, "rate limited by server"@),
        FetchError::ClientError => ("client_error"@, "client error (4xx)"@),
        FetchError::ServerError => ("server_error"@, "server error (5xx)"@),
    }
}

pub fn fetch_error_code(e: FetchError) -> (r: (&'static str, &'static str))
    ensures
        r.0@ == fetch_error_text(e).0,
        r.1@ == fetch_error_text(e).1,
{
    match e {
        FetchError::Network => ("network_error", "connection or timeout failure"),
        FetchError::NotFound => ("not_found", "resource not found"),
        FetchError::RateLimit => ("rate_limited", "rate limited by server"),
        FetchError::ClientError => ("client_error", "client error (4xx)"),
        FetchError::ServerError => ("server_error", "server error (5xx)"),
    }
}

pub const GET_PREFIX: &'static str = "{\"version\":1,\"method\":\"GET\",\"url\":\"";

pub const POST_PREFIX: &'static str = "{\"version\":1,\"method\":\"POST\",\"url\":\"";

pub const USER_AGENT_HEADER: &'static str = "\",\"headers\":{\"User-Agent\":\"Mozilla/5.0 (Windows NT 10.0; Win64; x64; rv:121.0) Gecko/20100101 Firefox/121.0\"";

pub const GET_SUFFIX: &'static str = "},\"timeoutMs\":15000,\"responseKind\":\"bodyText\"}";

pub const POST_BODY_PREFIX: &'static str = "},\"bodyBase64\":\"";

pub const POST_SUFFIX: &'static str = "\",\"timeoutMs\":15000,\"responseKind\":\"bodyText\"}";

/// `,"key":"value"` with both escaped.
pub open spec fn header_json(key: Seq<u8>, value: Seq<u8>) -> Seq<u8> {
    ",\"".spec_bytes() + escaped(key) + "\":\"".spec_bytes() + escaped(value) + "\"".spec_bytes()
}

/// The headers laid end to end.
pub open spec fn headers_json(headers: Seq<(&[u8], &[u8])>) -> Seq<u8>
    decreases headers.len(),
{
    if headers.len() == 0 {
        Seq::empty()
    } else {
        headers_json(headers.drop_last()) + header_json(headers.last().0@, headers.last().1@)
    }
}

pub open spec fn optional_header(key: Seq<u8>, value: Option<&[u8]>) -> Seq<u8> {
    match value {
        Some(v) => header_json(key, v@),
        None => Seq::empty(),
    }
}

/// The GET request description the host understands.
pub open spec fn get_request_json(
    url: Seq<u8>,
    referer: Option<&[u8]>,
    headers: Seq<(&[u8], &[u8])>,
) -> Seq<u8> {
    GET_PREFIX.spec_bytes() + escaped(url) + USER_AGENT_HEADER.spec_bytes() + optional_header(
        "Referer".spec_bytes(),
        referer,
    ) + headers_json(headers) + GET_SUFFIX.spec_bytes()
}

/// The POST request description the host understands; an empty content
/// type is left out.
pub open spec fn post_request_json(
    url: Seq<u8>,
    body: Seq<u8>,
    content_type: Seq<u8>,
    referer: Option<&[u8]>,
) -> Seq<u8> {
    POST_PREFIX.spec_bytes() + escaped(url) + USER_AGENT_HEADER.spec_bytes() + (if content_type.len()
        == 0 {
        Seq::empty()
    } else {
        header_json("Content-Type".spec_bytes(), content_type)
    }) + optional_header("Referer".spec_bytes(), referer) + POST_BODY_PREFIX.spec_bytes()
        + escaped(body) + POST_SUFFIX.spec_bytes()
}

/// What a builder leaves in `dst`: the whole description when it fits,
/// else a proper prefix of it.
pub open spec fn built(d0: Seq<u8>, d1: Seq<u8>, full: Seq<u8>, r: Option<usize>) -> bool {
    match r {
        Some(n) => n == full.len() && n <= d0.len() && d1 == splice(d0, 0, full),
        None => full.len() > d0.len() && exists|k: int|
            0 <= k < full.len() && k <= d0.len() && d1 == splice(d0, 0, full.take(k)),
    }
}

/// One more piece written after `done`: on success the written text
/// grows by `unit`; on failure the builder stops with a prefix of `full`.
proof fn lemma_step(
    d0: Seq<u8>,
    done: Seq<u8>,
    dm: Seq<u8>,
    cm: int,
    unit: Seq<u8>,
    d1: Seq<u8>,
    c1: int,
    good: bool,
    rest: Seq<u8>,
    full: Seq<u8>,
)
    requires
        appended(d0, 0, done, dm, cm, true),
        appended(dm, cm, unit, d1, c1, good),
        full == done + unit + rest,
    ensures
        good ==> appended(d0, 0, done + unit, d1, c1, true),
        !good ==> built(d0, d1, full, None),
{
    lemma_appended_then(d0, 0, done, dm, cm, unit, d1, c1, good);
    if !good {
        lemma_appended_fail_extend(d0, 0, done + unit, d1, c1, rest);
        assert(0 <= c1 < full.len() && c1 <= d0.len() && d1 == splice(d0, 0, full.take(c1)));
    }
}

proof fn lemma_finish(d0: Seq<u8>, full: Seq<u8>, d1: Seq<u8>, c1: usize)
    requires
        appended(d0, 0, full, d1, c1 as int, true),
    ensures
        built(d0, d1, full, Some(c1)),
{
}

proof fn lemma_start(d0: Seq<u8>)
    ensures
        appended(d0, 0, Seq::empty(), d0, 0, true),
{
}

/// Writes `,"key":"value"` with both parts escaped.
fn write_json_header(dst: &mut [u8], cursor: &mut usize, key: &[u8], value: &[u8]) -> (ok: bool)
    requires
        *old(cursor) <= old(dst)@.len(),
    ensures
        appended(
            old(dst)@,
            *old(cursor) as int,
            header_json(key@, value@),
            final(dst)@,
            *final(cursor) as int,
            ok,
        ),
        final(dst)@.len() == old(dst)@.len(),
{
    let ghost d0 = dst@;
    let ghost c0 = *cursor as int;
    let ghost p1 = ",\"".spec_bytes();
    let ghost p2 = escaped(key@);
    let ghost p3 = "\":\"".spec_bytes();
    let ghost p4 = escaped(value@);
    let ghost p5 = "\"".spec_bytes();
    let ghost rest = p2 + p3 + p4 + p5;
    assert(header_json(key@, value@) =~= p1 + p2 + p3 + p4 + p5);
    let (d1, c1) = (Ghost(dst@), Ghost(*cursor as int));
    if !put_str(dst, cursor, ",\"") {
        proof {
            lemma_appended_fail_extend(d0, c0, p1, dst@, *cursor as int, p2 + p3 + p4 + p5);
            assert(p1 + (p2 + p3 + p4 + p5) =~= p1 + p2 + p3 + p4 + p5);
        }
        return false;
    }
    let ghost da = dst@;
    let ghost ca = *cursor as int;
    if !put_escaped(dst, cursor, key) {
        proof {
            lemma_appended_fail_extend(da, ca, p2, dst@, *cursor as int, p3 + p4 + p5);
            lemma_appended_then(d0, c0, p1, da, ca, p2 + (p3 + p4 + p5), dst@, *cursor as int, false);
            assert(p1 + (p2 + (p3 + p4 + p5)) =~= p1 + p2 + p3 + p4 + p5);
        }
        return false;
    }
    proof {
        lemma_appended_then(d0, c0, p1, da, ca, p2, dst@, *cursor as int, true);
    }
    let ghost db = dst@;
    let ghost cb = *cursor as int;
    if !put_str(dst, cursor, "\":\"") {
        proof {
            lemma_appended_fail_extend(db, cb, p3, dst@, *cursor as int, p4 + p5);
            lemma_appended_then(d0, c0, p1 + p2, db, cb, p3 + (p4 + p5), dst@, *cursor as int, false);
            assert((p1 + p2) + (p3 + (p4 + p5)) =~= p1 + p2 + p3 + p4 + p5);
        }
        return false;
    }
    proof {
        lemma_appended_then(d0, c0, p1 + p2, db, cb, p3, dst@, *cursor as int, true);
    }
    let ghost dc = dst@;
    let ghost cc = *cursor as int;
    if !put_escaped(dst, cursor, value) {
        proof {
            lemma_appended_fail_extend(dc, cc, p4, dst@, *cursor as int, p5);
            lemma_appended_then(d0, c0, p1 + p2 + p3, dc, cc, p4 + p5, dst@, *cursor as int, false);
            assert((p1 + p2 + p3) + (p4 + p5) =~= p1 + p2 + p3 + p4 + p5);
        }
        return false;
    }
    proof {
        lemma_appended_then(d0, c0, p1 + p2 + p3, dc, cc, p4, dst@, *cursor as int, true);
    }
    let ghost dd = dst@;
    let ghost cd = *cursor as int;
    let ok = put_str(dst, cursor, "\"");
    proof {
        lemma_appended_then(d0, c0, p1 + p2 + p3 + p4, dd, cd, p5, dst@, *cursor as int, ok);
    }
    ok
}

/// Writes each header in turn, stopping at the first that does not fit.
fn write_extra_headers(dst: &mut [u8], cursor: &mut usize, headers: &[(&[u8], &[u8])]) -> (ok:
    bool)
    requires
        *old(cursor) <= old(dst)@.len(),
    ensures
        appended(
            old(dst)@,
            *old(cursor) as int,
            headers_json(headers@),
            final(dst)@,
            *final(cursor) as int,
            ok,
        ),
        final(dst)@.len() == old(dst)@.len(),
{
    let ghost d0 = dst@;
    let ghost c0 = *cursor as int;
    let mut i: usize = 0;
    assert(headers_json(headers@.take(0)) =~= Seq::<u8>::empty()) by {
        assert(headers@.take(0) =~= Seq::<(&[u8], &[u8])>::empty());
    }
    assert(splice(d0, c0, Seq::<u8>::empty()) == d0);
    while i < headers.len()
        invariant
            0 <= i <= headers@.len(),
            d0 == old(dst)@,
            c0 == *old(cursor),
            c0 <= d0.len(),
            dst@.len() == d0.len(),
            appended(d0, c0, headers_json(headers@.take(i as int)), dst@, *cursor as int, true),
        decreases headers@.len() - i,
    {
        let (key, value) = headers[i];
        let ghost dm = dst@;
        let ghost cm = *cursor as int;
        let ghost done = headers_json(headers@.take(i as int));
        let ghost h = header_json(key@, value@);
        assert(headers@.take(i + 1).drop_last() =~= headers@.take(i as int));
        assert(headers_json(headers@.take(i + 1)) == done + h);
        let ok = write_json_header(dst, cursor, key, value);
        proof {
            lemma_appended_then(d0, c0, done, dm, cm, h, dst@, *cursor as int, ok);
        }
        if !ok {
            proof {
                lemma_headers_prefix(headers@, i + 1);
                let rest = headers_json(headers@).subrange(
                    (done + h).len() as int,
                    headers_json(headers@).len() as int,
                );
                lemma_appended_fail_extend(d0, c0, done + h, dst@, *cursor as int, rest);
                assert(done + h + rest =~= headers_json(headers@));
            }
            return false;
        }
        i = i + 1;
    }
    assert(headers@.take(headers@.len() as int) =~= headers@);
    true
}

proof fn lemma_headers_prefix(headers: Seq<(&[u8], &[u8])>, k: int)
    requires
        0 <= k <= headers.len(),
    ensures
        headers_json(headers.take(k)).len() <= headers_json(headers).len(),
        headers_json(headers).subrange(0, headers_json(headers.take(k)).len() as int)
            == headers_json(headers.take(k)),
    decreases headers.len(),
{
    if k < headers.len() {
        lemma_headers_prefix(headers.drop_last(), k);
        assert(headers.drop_last().take(k) =~= headers.take(k));
        let p = headers_json(headers.take(k));
        assert(headers_json(headers).subrange(0, p.len() as int) =~= headers_json(
            headers.drop_last(),
        ).subrange(0, p.len() as int));
    } else {
        assert(headers.take(k) =~= headers);
        assert(headers_json(headers).subrange(0, headers_json(headers).len() as int)
            =~= headers_json(headers));
    }
}

/// Writes the optional header, if present.
fn write_optional_header(dst: &mut [u8], cursor: &mut usize, key: &[u8], value: Option<&[u8]>) -> (ok:
    bool)
    requires
        *old(cursor) <= old(dst)@.len(),
    ensures
        appended(
            old(dst)@,
            *old(cursor) as int,
            optional_header(key@, value),
            final(dst)@,
            *final(cursor) as int,
            ok,
        ),
        final(dst)@.len() == old(dst)@.len(),
{
    match value {
        Some(v) => write_json_header(dst, cursor, key, v),
        None => {
            assert(splice(dst@, *cursor as int, Seq::<u8>::empty()) == dst@);
            true
        },
    }
}

/// Describes a GET of `url` (escaped into the JSON), with the standard
/// user agent, the optional referer and the extra headers; returns its
/// length, or `None` when it does not fit in `dst`.
#[verifier::spinoff_prover]
#[verifier::rlimit(40)]
pub fn build_get_request(
    dst: &mut [u8],
    url: &[u8],
    referer: Option<&[u8]>,
    extra_headers: &[(&[u8], &[u8])],
) -> (r: Option<usize>)
    ensures
        built(old(dst)@, final(dst)@, get_request_json(url@, referer, extra_headers@), r),
{
    let ghost d0 = dst@;
    let ghost p1 = GET_PREFIX.spec_bytes();
    let ghost p2 = escaped(url@);
    let ghost p3 = USER_AGENT_HEADER.spec_bytes();
    let ghost p4 = optional_header("Referer".spec_bytes(), referer);
    let ghost p5 = headers_json(extra_headers@);
    let ghost p6 = GET_SUFFIX.spec_bytes();
    let ghost full = get_request_json(url@, referer, extra_headers@);
    let ghost e = Seq::<u8>::empty();
    let mut cursor: usize = 0;
    proof {
        lemma_start(d0);
    }
    let ghost dm = dst@;
    let good = put_str(dst, &mut cursor, GET_PREFIX);
    proof {
        assert(e + p1 + (p2 + p3 + p4 + p5 + p6) =~= full);
        assert(e + p1 =~= p1);
        lemma_step(d0, e, dm, 0, p1, dst@, cursor as int, good, p2 + p3 + p4 + p5 + p6, full);
    }
    if !good {
        return None;
    }
    let ghost dm = dst@;
    let ghost cm = cursor as int;
    let good = put_escaped(dst, &mut cursor, url);
    proof {
        assert(p1 + p2 + (p3 + p4 + p5 + p6) =~= full);
        lemma_step(d0, p1, dm, cm, p2, dst@, cursor as int, good, p3 + p4 + p5 + p6, full);
    }
    if !good {
        return None;
    }
    let ghost dm = dst@;
    let ghost cm = cursor as int;
    let good = put_str(dst, &mut cursor, USER_AGENT_HEADER);
    proof {
        assert(p1 + p2 + p3 + (p4 + p5 + p6) =~= full);
        lemma_step(d0, p1 + p2, dm, cm, p3, dst@, cursor as int, good, p4 + p5 + p6, full);
    }
    if !good {
        return None;
    }
    let ghost dm = dst@;
    let ghost cm = cursor as int;
    let good = write_optional_header(dst, &mut cursor, "Referer".as_bytes(), referer);
    proof {
        assert(p1 + p2 + p3 + p4 + (p5 + p6) =~= full);
        lemma_step(d0, p1 + p2 + p3, dm, cm, p4, dst@, cursor as int, good, p5 + p6, full);
    }
    if !good {
        return None;
    }
    let ghost dm = dst@;
    let ghost cm = cursor as int;
    let good = write_extra_headers(dst, &mut cursor, extra_headers);
    proof {
        assert(p1 + p2 + p3 + p4 + p5 + p6 =~= full);
        lemma_step(d0, p1 + p2 + p3 + p4, dm, cm, p5, dst@, cursor as int, good, p6, full);
    }
    if !good {
        return None;
    }
    let ghost dm = dst@;
    let ghost cm = cursor as int;
    let good = put_str(dst, &mut cursor, GET_SUFFIX);
    proof {
        assert(p1 + p2 + p3 + p4 + p5 + p6 + e =~= full);
        lemma_step(d0, p1 + p2 + p3 + p4 + p5, dm, cm, p6, dst@, cursor as int, good, e, full);
    }
    if !good {
        return None;
    }
    proof {
        lemma_finish(d0, full, dst@, cursor);
    }
    Some(cursor)
}


/// Describes a POST of `body` to `url` (both escaped into the JSON), with
/// the standard user agent, the content type unless it is empty, and the
/// optional referer; returns its length, or `None` when it does not fit.
#[verifier::spinoff_prover]
#[verifier::rlimit(60)]
pub fn build_post_request(
    dst: &mut [u8],
    url: &[u8],
    body: &[u8],
    content_type: &[u8],
    referer: Option<&[u8]>,
) -> (r: Option<usize>)
    ensures
        built(old(dst)@, final(dst)@, post_request_json(url@, body@, content_type@, referer), r),
{
    let ghost d0 = dst@;
    let ct: Option<&[u8]> = if content_type.len() == 0 {
        None
    } else {
        Some(content_type)
    };
    let ghost p1 = POST_PREFIX.spec_bytes();
    let ghost p2 = escaped(url@);
    let ghost p3 = USER_AGENT_HEADER.spec_bytes();
    let ghost p4 = optional_header("Content-Type".spec_bytes(), ct);
    let ghost p5 = optional_header("Referer".spec_bytes(), referer);
    let ghost p6 = POST_BODY_PREFIX.spec_bytes();
    let ghost p7 = escaped(body@);
    let ghost p8 = POST_SUFFIX.spec_bytes();
    let ghost full = post_request_json(url@, body@, content_type@, referer);
    let ghost e = Seq::<u8>::empty();
    assert(full =~= p1 + p2 + p3 + p4 + p5 + p6 + p7 + p8);
    let mut cursor: usize = 0;
    proof {
        lemma_start(d0);
    }
    let ghost dm = dst@;
    let good = put_str(dst, &mut cursor, POST_PREFIX);
    proof {
        assert(e + p1 + (p2 + p3 + p4 + p5 + p6 + p7 + p8) =~= full);
        assert(e + p1 =~= p1);
        lemma_step(d0, e, dm, 0, p1, dst@, cursor as int, good, p2 + p3 + p4 + p5 + p6 + p7 + p8, full);
    }
    if !good {
        return None;
    }
    let ghost dm = dst@;
    let ghost cm = cursor as int;
    let good = put_escaped(dst, &mut cursor, url);
    proof {
        assert(p1 + p2 + (p3 + p4 + p5 + p6 + p7 + p8) =~= full);
        lemma_step(d0, p1, dm, cm, p2, dst@, cursor as int, good, p3 + p4 + p5 + p6 + p7 + p8, full);
    }
    if !good {
        return None;
    }
    let ghost dm = dst@;
    let ghost cm = cursor as int;
    let good = put_str(dst, &mut cursor, USER_AGENT_HEADER);
    proof {
        assert(p1 + p2 + p3 + (p4 + p5 + p6 + p7 + p8) =~= full);
        lemma_step(d0, p1 + p2, dm, cm, p3, dst@, cursor as int, good, p4 + p5 + p6 + p7 + p8, full);
    }
    if !good {
        return None;
    }
    let ghost dm = dst@;
    let ghost cm = cursor as int;
    let good = write_optional_header(dst, &mut cursor, "Content-Type".as_bytes(), ct);
    proof {
        assert(p1 + p2 + p3 + p4 + (p5 + p6 + p7 + p8) =~= full);
        lemma_step(d0, p1 + p2 + p3, dm, cm, p4, dst@, cursor as int, good, p5 + p6 + p7 + p8, full);
    }
    if !good {
        return None;
    }
    let ghost dm = dst@;
    let ghost cm = cursor as int;
    let good = write_optional_header(dst, &mut cursor, "Referer".as_bytes(), referer);
    proof {
        assert(p1 + p2 + p3 + p4 + p5 + (p6 + p7 + p8) =~= full);
        lemma_step(d0, p1 + p2 + p3 + p4, dm, cm, p5, dst@, cursor as int, good, p6 + p7 + p8, full);
    }
    if !good {
        return None;
    }
    let ghost dm = dst@;
    let ghost cm = cursor as int;
    let good = put_str(dst, &mut cursor, POST_BODY_PREFIX);
    proof {
        assert(p1 + p2 + p3 + p4 + p5 + p6 + (p7 + p8) =~= full);
        lemma_step(d0, p1 + p2 + p3 + p4 + p5, dm, cm, p6, dst@, cursor as int, good, p7 + p8, full);
    }
    if !good {
        return None;
    }
    let ghost dm = dst@;
    let ghost cm = cursor as int;
    let good = put_escaped(dst, &mut cursor, body);
    proof {
        assert(p1 + p2 + p3 + p4 + p5 + p6 + p7 + p8 =~= full);
        lemma_step(d0, p1 + p2 + p3 + p4 + p5 + p6, dm, cm, p7, dst@, cursor as int, good, p8, full);
    }
    if !good {
        return None;
    }
    let ghost dm = dst@;
    let ghost cm = cursor as int;
    let good = put_str(dst, &mut cursor, POST_SUFFIX);
    proof {
        assert(p1 + p2 + p3 + p4 + p5 + p6 + p7 + p8 + e =~= full);
        lemma_step(d0, p1 + p2 + p3 + p4 + p5 + p6 + p7, dm, cm, p8, dst@, cursor as int, good, e, full);
    }
    if !good {
        return None;
    }
    proof {
        lemma_finish(d0, full, dst@, cursor);
    }
    Some(cursor)
}

/// `x` capped at the largest `u16`.
pub open spec fn cap_u16(x: int) -> int {
    if x > 65535 {
        65535
    } else {
        x
    }
}

/// The digits of `bytes` read as a number, other bytes skipped, every step
/// saturating at 65535.
pub open spec fn status_value(bytes: Seq<u8>) -> int
    decreases bytes.len(),
{
    if bytes.len() == 0 {
        0
    } else if is_digit(bytes.last()) {
        cap_u16(cap_u16(status_value(bytes.drop_last()) * 10) + (bytes.last() - 48))
    } else {
        status_value(bytes.drop_last())
    }
}

/// Reads an HTTP status code from its digits.
pub fn parse_status_code(bytes: &[u8]) -> (r: u16)
    ensures
        r == status_value(bytes@),
{
    let mut n: u16 = 0;
    let mut i: usize = 0;
    while i < bytes.len()
        invariant
            0 <= i <= bytes@.len(),
            n == status_value(bytes@.take(i as int)),
        decreases bytes@.len() - i,
    {
        let b = bytes[i];
        assert(bytes@.take(i + 1).drop_last() =~= bytes@.take(i as int));
        if b >= 48 && b <= 57 {
            let m: u16 = if n > 6553 {
                65535
            } else {
                n * 10
            };
            n = m.saturating_add((b - 48) as u16);
        }
        i = i + 1;
    }
    assert(bytes@.take(bytes@.len() as int) =~= bytes@);
    n
}

/// How a failed fetch is classified by its HTTP status.
pub open spec fn status_error(code: int) -> FetchError {
    if code == 404 {
        FetchError::NotFound
    } else if code == 429 {
        FetchError::RateLimit
    } else if 400 <= code <= 499 {
        FetchError::ClientError
    } else if 500 <= code <= 599 {
        FetchError::ServerError
    } else {
        FetchError::Network
    }
}

/// JSON escape letter to the byte it stands for.
pub open spec fn unescape_letter(next: u8) -> u8 {
    if next == 110 {
        10
    } else if next == 114 {
        13
    } else if next == 116 {
        9
    } else {
        next
    }
}

/// Decoded text of a JSON string whose body starts at `i`, up to its
/// closing quote; `None` when the quote is missing or a `\u` escape is
/// short or not hexadecimal.
pub open spec fn body_text_from(resp: Seq<u8>, i: int) -> Option<Seq<u8>>
    decreases resp.len() - i,
{
    if i < 0 || i >= resp.len() {
        None
    } else if resp[i] == 92 && i + 1 < resp.len() {
        if resp[i + 1] == 117 {
            if i + 5 >= resp.len() || !all_hex(resp.subrange(i + 2, i + 6)) {
                None
            } else {
                match body_text_from(resp, i + 6) {
                    Some(rest) => Some(
                        utf8_encode(hex_number(resp.subrange(i + 2, i + 6)) as u32) + rest,
                    ),
                    None => None,
                }
            }
        } else {
            match body_text_from(resp, i + 2) {
                Some(rest) => Some(seq![unescape_letter(resp[i + 1])] + rest),
                None => None,
            }
        }
    } else if resp[i] == 34 {
        Some(Seq::empty())
    } else {
        match body_text_from(resp, i + 1) {
            Some(rest) => Some(seq![resp[i]] + rest),
            None => None,
        }
    }
}

/// The bytes decoding a `bodyText` body from `i` writes into `room` free
/// bytes: each decoded unit while it fits, up to the closing quote, a
/// malformed `\u` escape or the first unit that does not fit. With
/// `reserve`, a `\u` escape needs three free bytes whatever it encodes to.
pub open spec fn body_written(resp: Seq<u8>, i: int, room: int, reserve: bool) -> Seq<u8>
    decreases resp.len() - i,
{
    if i < 0 || i >= resp.len() {
        Seq::empty()
    } else if resp[i] == 92 && i + 1 < resp.len() {
        if resp[i + 1] == 117 {
            if i + 5 >= resp.len() || (reserve && room < 3) || !all_hex(resp.subrange(i + 2, i + 6)) {
                Seq::empty()
            } else {
                let u = utf8_encode(hex_number(resp.subrange(i + 2, i + 6)) as u32);
                if u.len() > room {
                    Seq::empty()
                } else {
                    u + body_written(resp, i + 6, room - u.len(), reserve)
                }
            }
        } else if room < 1 {
            Seq::empty()
        } else {
            seq![unescape_letter(resp[i + 1])] + body_written(resp, i + 2, room - 1, reserve)
        }
    } else if resp[i] == 34 {
        Seq::empty()
    } else if room < 1 {
        Seq::empty()
    } else {
        seq![resp[i]] + body_written(resp, i + 1, room - 1, reserve)
    }
}

pub const OK_MARKER: &'static str = "\"ok\":true";

pub const BODY_MARKER: &'static str = "\"bodyText\":\"";

/// What decoding a host reply into a buffer of `cap` bytes yields: a reply
/// without `"ok":true` is an error classified by its `statusCode`
/// (network when there is none); otherwise the decoded `bodyText`, which
/// must be present, well formed and fit.
pub open spec fn decoded_body(resp: Seq<u8>, cap: nat) -> Result<Seq<u8>, FetchError> {
    if !(exists|i: int| matches_at(resp, OK_MARKER.spec_bytes(), i)) {
        match json_number_value(resp, "statusCode".spec_bytes()) {
            Some(code) => Err(status_error(status_value(code))),
            None => Err(FetchError::Network),
        }
    } else {
        body_text_result(resp, cap)
    }
}

/// The decoded `bodyText` of a host reply for a buffer of `cap` bytes: it
/// must be present, well formed and fit.
pub open spec fn body_text_result(resp: Seq<u8>, cap: nat) -> Result<Seq<u8>, FetchError> {
    match find(resp, BODY_MARKER.spec_bytes()) {
        None => Err(FetchError::Network),
        Some(p) => match body_text_from(resp, p + BODY_MARKER.spec_bytes().len()) {
            Some(out) => if out.len() <= cap {
                Ok(out)
            } else {
                Err(FetchError::Network)
            },
            None => Err(FetchError::Network),
        },
    }
}


/// The value of four hexadecimal digits, or `None` when one is not a hex
/// digit.
pub(crate) fn decode_hex4(hex: &[u8]) -> (r: Option<u32>)
    requires
        hex@.len() == 4,
    ensures
        match r {
            Some(c) => all_hex(hex@) && c == hex_number(hex@) && c < 0x10000,
            None => !all_hex(hex@),
        },
{
    let mut code: u32 = 0;
    let mut k: usize = 0;
    while k < 4
        invariant
            0 <= k <= 4,
            hex@.len() == 4,
            all_hex(hex@.take(k as int)),
            code == hex_number(hex@.take(k as int)),
            code < crate::json_utils::pow16(k as nat),
        decreases 4 - k,
    {
        proof {
            crate::json_utils::lemma_pow16_4();
        }
        let h = hex[k];
        let v: u32 = if h >= 48 && h <= 57 {
            (h - 48) as u32
        } else if h >= 97 && h <= 102 {
            (h - 87) as u32
        } else if h >= 65 && h <= 70 {
            (h - 55) as u32
        } else {
            assert(!all_hex(hex@)) by {
                assert(hex@[k as int] == h);
            }
            return None;
        };
        let ghost t = hex@.take(k + 1);
        assert(t.drop_last() =~= hex@.take(k as int));
        assert(all_hex(t)) by {
            assert forall|j: int| 0 <= j < t.len() implies crate::json_utils::is_hex(
                #[trigger] t[j],
            ) by {
                if j < k {
                    assert(t[j] == hex@.take(k as int)[j]);
                }
            }
        }
        assert(crate::json_utils::pow16((k + 1) as nat) == 16 * crate::json_utils::pow16(k as nat));
        assert(code * 16 + v < 16 * crate::json_utils::pow16(k as nat)) by (nonlinear_arith)
            requires
                code < crate::json_utils::pow16(k as nat),
                v < 16,
        ;
        assert(code < 0x1000) by {
            assert(crate::json_utils::pow16(k as nat) <= 4096);
        }
        assert((code << 4u32) | v == code * 16 + v) by (bit_vector)
            requires
                code < 0x1000,
                v < 16,
        ;
        code = (code << 4) | v;
        assert(hex_value(h) == v);
        assert(code == hex_number(t));
        k = k + 1;
    }
    assert(hex@.take(4) =~= hex@);
    proof {
        crate::json_utils::lemma_pow16_4();
    }
    Some(code)
}

/// Decodes the `bodyText` of a host HTTP reply into `dst` and returns its
/// length, or the error the reply stands for.
pub fn decode_json_body_into(resp: &[u8], dst: &mut [u8]) -> (r: Result<usize, FetchError>)
    ensures
        final(dst)@.len() == old(dst)@.len(),
        match r {
            Ok(n) => n <= old(dst)@.len() && decoded_body(resp@, old(dst)@.len()) == Ok::<
                Seq<u8>,
                FetchError,
            >(final(dst)@.take(n as int)) && final(dst)@.skip(n as int) == old(dst)@.skip(n as int),
            Err(e) => decoded_body(resp@, old(dst)@.len()) == Err::<Seq<u8>, FetchError>(e),
        },        !(exists|i: int| matches_at(resp@, OK_MARKER.spec_bytes(), i)) || find(resp@, BODY_MARKER.spec_bytes()) is None
            ==> final(dst)@ == old(dst)@,
        (exists|i: int| matches_at(resp@, OK_MARKER.spec_bytes(), i)) ==> (find(resp@, BODY_MARKER.spec_bytes())
            matches Some(p) ==> final(dst)@ == splice(
            old(dst)@,
            0,
            body_written(resp@, p + BODY_MARKER.spec_bytes().len(), old(dst)@.len() as int, false),
        )),
{
    proof {
        reveal_strlit("\"ok\":true");
    }
    if !contains_bytes(resp, OK_MARKER.as_bytes()) {
        let err = match extract_json_number(resp, "statusCode".as_bytes()) {
            Some(code_bytes) => {
                let code = parse_status_code(code_bytes);
                if code == 404 {
                    FetchError::NotFound
                } else if code == 429 {
                    FetchError::RateLimit
                } else if code >= 400 && code <= 499 {
                    FetchError::ClientError
                } else if code >= 500 && code <= 599 {
                    FetchError::ServerError
                } else {
                    FetchError::Network
                }
            },
            None => FetchError::Network,
        };
        return Err(err);
    }
    decode_body_text(resp, dst)
}

/// Decodes the `bodyText` of a host HTTP reply into `dst` and returns its
/// length; an error when it is missing, malformed or does not fit.
#[verifier::rlimit(80)]
pub fn decode_body_text(resp: &[u8], dst: &mut [u8]) -> (r: Result<usize, FetchError>)
    ensures
        final(dst)@.len() == old(dst)@.len(),
        match r {
            Ok(n) => n <= old(dst)@.len() && body_text_result(resp@, old(dst)@.len()) == Ok::<
                Seq<u8>,
                FetchError,
            >(final(dst)@.take(n as int)) && final(dst)@.skip(n as int) == old(dst)@.skip(n as int),
            Err(e) => body_text_result(resp@, old(dst)@.len()) == Err::<Seq<u8>, FetchError>(e),
        },
        find(resp@, BODY_MARKER.spec_bytes()) is None ==> final(dst)@ == old(dst)@,
        find(resp@, BODY_MARKER.spec_bytes()) matches Some(p) ==> final(dst)@ == splice(
            old(dst)@,
            0,
            body_written(resp@, p + BODY_MARKER.spec_bytes().len(), old(dst)@.len() as int, false),
        ),
{
    let marker = BODY_MARKER.as_bytes();
    let p = match find_subslice(resp, marker) {
        Some(p) => p,
        None => return Err(FetchError::Network),
    };
    assert(p + marker@.len() <= resp@.len());
    assert(resp@.len() == resp.len());
    let start = p + marker.len();
    let ghost d0 = dst@;
    let mut i = start;
    let mut out: usize = 0;
    proof {
        assert(dst@.take(0) + body_written(resp@, start as int, d0.len() as int, false) =~= body_written(
            resp@,
            start as int,
            d0.len() as int,
            false,
        ));
    }
    while i < resp.len()
        invariant
            start <= i <= resp@.len(),
            start == p + BODY_MARKER.spec_bytes().len(),
            find(resp@, BODY_MARKER.spec_bytes()) == Some(p as int),
            d0 == old(dst)@,
            dst@.len() == d0.len(),
            out <= dst@.len(),
            dst@.skip(out as int) == d0.skip(out as int),
            body_text_from(resp@, start as int) == match body_text_from(resp@, i as int) {
                Some(rest) => Some(dst@.take(out as int) + rest),
                None => None::<Seq<u8>>,
            },
            body_written(resp@, start as int, d0.len() as int, false) == dst@.take(out as int) + body_written(
                resp@,
                i as int,
                d0.len() - out,
                false,
            ),
        decreases resp@.len() - i,
    {
        let b = resp[i];
        let ghost before = dst@;
        if b == 92 && i + 1 < resp.len() {
            let next = resp[i + 1];
            if next == 117 {
                if resp.len() < 6 || i > resp.len() - 6 {
                    proof {
                        lemma_prefix_written(d0, dst@, out as int);
                    }
                    return Err(FetchError::Network);
                }
                let hex = slice_subrange(resp, i + 2, i + 6);
                let code = match decode_hex4(hex) {
                    Some(c) => c,
                    None => {
                        proof {
                            lemma_prefix_written(d0, dst@, out as int);
                        }
                        return Err(FetchError::Network);
                    },
                };
                assert(hex@ == resp@.subrange(i + 2, i + 6));
                let mut encoded: [u8; 4] = [0, 0, 0, 0];
                let len = encode_utf8(code, &mut encoded);
                if out > dst.len() || len > dst.len() - out {
                    proof {
                        lemma_prefix_written(d0, dst@, out as int);
                    }
                    return Err(FetchError::Network);
                }
                let mut j: usize = 0;
                while j < len
                    invariant
                        0 <= j <= len <= 4,
                        out + len <= dst.len(),
                        dst@.len() == before.len(),
                        encoded@.take(len as int) == utf8_encode(code),
                        dst@ == splice(before, out as int, encoded@.take(j as int)),
                    decreases len - j,
                {
                    dst[out + j] = encoded[j];
                    j = j + 1;
                    assert(dst@ =~= splice(before, out as int, encoded@.take(j as int)));
                }
                proof {
                    let u = utf8_encode(code);
                    assert(dst@.take(out + len) =~= before.take(out as int) + u);
                    assert(dst@.skip(out + len) =~= d0.skip(out + len)) by {
                        assert(dst@.skip(out + len) =~= before.skip(out + len));
                        assert(before.skip(out + len) =~= before.skip(out as int).skip(len as int));
                        assert(d0.skip(out + len) =~= d0.skip(out as int).skip(len as int));
                    }
                }
                out = out + len;
                i = i + 6;
            } else {
                if out >= dst.len() {
                    proof {
                        lemma_prefix_written(d0, dst@, out as int);
                    }
                    return Err(FetchError::Network);
                }
                dst[out] = if next == 110 {
                    10
                } else if next == 114 {
                    13
                } else if next == 116 {
                    9
                } else {
                    next
                };
                proof {
                    assert(dst@.take(out + 1) =~= before.take(out as int) + seq![
                        unescape_letter(next),
                    ]);
                    assert(dst@.skip(out + 1) =~= d0.skip(out + 1)) by {
                        assert(before.skip(out + 1) =~= before.skip(out as int).skip(1));
                        assert(d0.skip(out + 1) =~= d0.skip(out as int).skip(1));
                    }
                }
                out = out + 1;
                i = i + 2;
            }
            continue;
        }
        if b == 34 {
            proof {
                assert(dst@.take(out as int) + Seq::<u8>::empty() =~= dst@.take(out as int));
                lemma_prefix_written(d0, dst@, out as int);
            }
            return Ok(out);
        }
        if out >= dst.len() {
            proof {
                lemma_prefix_written(d0, dst@, out as int);
            }
            return Err(FetchError::Network);
        }
        dst[out] = b;
        proof {
            assert(dst@.take(out + 1) =~= before.take(out as int) + seq![b]);
            assert(dst@.skip(out + 1) =~= d0.skip(out + 1)) by {
                assert(before.skip(out + 1) =~= before.skip(out as int).skip(1));
                assert(d0.skip(out + 1) =~= d0.skip(out as int).skip(1));
            }
        }
        out = out + 1;
        i = i + 1;
    }
    proof {
        lemma_prefix_written(d0, dst@, out as int);
    }
    Err(FetchError::Network)
}


/// How many times a request is sent before a transport failure is given
/// up as a network error.
/// A buffer that agrees with `d0` past `out` is `d0` with its first `out`
/// bytes written over.
pub proof fn lemma_prefix_written(d0: Seq<u8>, d: Seq<u8>, out: int)
    requires
        0 <= out <= d.len(),
        d.len() == d0.len(),
        d.skip(out) == d0.skip(out),
    ensures
        d == splice(d0, 0, d.take(out)),
{
    assert(d =~= d.take(out) + d.skip(out));
    if out == 0 {
        assert(d =~= d0.skip(0));
        assert(d0.skip(0) =~= d0);
    } else {
        assert(splice(d0, 0, d.take(out)) =~= d.take(out) + d0.skip(out));
    }
}

pub const TRANSPORT_TRIES: u8 = 3;

/// After the transport failed on try `attempt` (counting from 0), whether
/// the request is sent again.
pub fn retry_transport(attempt: u8) -> (r: bool)
    ensures
        r == (attempt + 1 < TRANSPORT_TRIES),
{
    attempt < TRANSPORT_TRIES - 1
}

} // verus!
