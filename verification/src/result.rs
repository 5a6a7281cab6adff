//! The response buffer a source hands back to the host: a 16-byte header
//! (magic, ok flag, payload length, reserved word, each little-endian)
//! followed by a JSON response envelope.
use vstd::prelude::*;
use vstd::string::StringSliceAdditionalSpecFns;
use crate::json_utils::{splice, write_bytes};
use crate::source::{SourceCapabilities, SourceInfo};

verus! {

pub const KOMA_MAGIC: u32 = 0x4B4F4D41;

pub const HEADER_LEN: usize = 16;

pub const RESPONSE_PREFIX_OK: &'static str = "{\"type\":\"response\",\"version\":1,\"ok\":true,\"operation\":\"";

pub const RESPONSE_PREFIX_ERROR: &'static str = "{\"type\":\"response\",\"version\":1,\"ok\":false,\"operation\":\"";

pub const DATA_PREFIX: &'static str = "\",\"data\":";

pub const ERROR_PREFIX: &'static str = "\",\"error\":{\"code\":\"";

pub const ERROR_MESSAGE_PREFIX: &'static str = "\",\"message\":\"";

pub const ERROR_SUFFIX: &'static str = "\"},\"hostHints\":{\"network\":false},\"warnings\":[]}";

pub const SUCCESS_SUFFIX: &'static str = ",\"hostHints\":{\"abi\":\"koma-host-v0.1\",\"maxMemoryPages\":2,\"maxPayloadBytes\":1048576,\"network\":false},\"warnings\":[],\"elapsedMs\":0}";

/// Little-endian bytes of a 32-bit word.
pub open spec fn le_u32(x: u32) -> Seq<u8> {
    seq![
        (x & 0xff) as u8,
        ((x >> 8u32) & 0xff) as u8,
        ((x >> 16u32) & 0xff) as u8,
        ((x >> 24u32) & 0xff) as u8,
    ]
}

/// Header and payload as they sit at the front of the buffer.
pub open spec fn frame(ok: bool, payload: Seq<u8>) -> Seq<u8> {
    le_u32(KOMA_MAGIC) + le_u32(
        if ok {
            1u32
        } else {
            0u32
        },
    ) + le_u32(payload.len() as u32) + le_u32(0) + payload
}

/// The parts laid end to end.
pub open spec fn concat_parts(parts: Seq<&[u8]>) -> Seq<u8>
    decreases parts.len(),
{
    if parts.len() == 0 {
        Seq::empty()
    } else {
        concat_parts(parts.drop_last()) + parts.last()@
    }
}

/// The byte strings laid end to end.
pub open spec fn flatten_bytes(parts: Seq<Seq<u8>>) -> Seq<u8>
    decreases parts.len(),
{
    if parts.len() == 0 {
        Seq::empty()
    } else {
        flatten_bytes(parts.drop_last()) + parts.last()
    }
}

proof fn lemma_concat_parts_flatten(s: Seq<&[u8]>, m: Seq<Seq<u8>>)
    requires
        s.len() == m.len(),
        forall|i: int| 0 <= i < s.len() ==> (#[trigger] s[i])@ == m[i],
    ensures
        concat_parts(s) == flatten_bytes(m),
    decreases s.len(),
{
    if s.len() > 0 {
        lemma_concat_parts_flatten(s.drop_last(), m.drop_last());
    }
}

/// Envelope of a successful operation carrying `data` (JSON text).
pub open spec fn success_payload(operation: Seq<u8>, data: Seq<u8>) -> Seq<u8> {
    RESPONSE_PREFIX_OK.spec_bytes() + operation + DATA_PREFIX.spec_bytes() + data
        + SUCCESS_SUFFIX.spec_bytes()
}

/// Envelope of a failed operation.
pub open spec fn error_payload(operation: Seq<u8>, code: Seq<u8>, message: Seq<u8>) -> Seq<u8> {
    RESPONSE_PREFIX_ERROR.spec_bytes() + operation + ERROR_PREFIX.spec_bytes() + code
        + ERROR_MESSAGE_PREFIX.spec_bytes() + message + ERROR_SUFFIX.spec_bytes()
}

pub open spec fn bool_text(value: bool) -> Seq<u8> {
    if value {
        "true".spec_bytes()
    } else {
        "false".spec_bytes()
    }
}

/// The pieces of the `data` object that describes a source and what it
/// supports.
pub open spec fn metadata_parts(info: SourceInfo, caps: SourceCapabilities) -> Seq<Seq<u8>> {
    seq![
        "{\"sourceInfo\":{\"id\":\"".spec_bytes(),
        info.id.spec_bytes(),
        "\",\"name\":\"".spec_bytes(),
        info.name.spec_bytes(),
        "\",\"version\":\"".spec_bytes(),
        info.version.spec_bytes(),
        "\",\"apiVersion\":\"".spec_bytes(),
        info.api_version.spec_bytes(),
        "\",\"language\":\"".spec_bytes(),
        info.language.spec_bytes(),
        "\",\"author\":\"".spec_bytes(),
        info.author.spec_bytes(),
        "\",\"description\":\"".spec_bytes(),
        info.description.spec_bytes(),
        "\",\"contentRating\":\"".spec_bytes(),
        info.content_rating.spec_bytes(),
        "\"},\"capabilities\":{\"search\":".spec_bytes(),
        bool_text(caps.search),
        ",\"mangaDetail\":".spec_bytes(),
        bool_text(caps.manga_detail),
        ",\"chapters\":".spec_bytes(),
        bool_text(caps.chapters),
        ",\"pages\":".spec_bytes(),
        bool_text(caps.pages),
        ",\"listings\":".spec_bytes(),
        bool_text(caps.listings),
        ",\"mangaList\":".spec_bytes(),
        bool_text(caps.manga_list),
        ",\"home\":".spec_bytes(),
        bool_text(caps.home),
        ",\"filters\":".spec_bytes(),
        bool_text(caps.filters),
        ",\"settings\":".spec_bytes(),
        bool_text(caps.settings),
        ",\"imageRequest\":".spec_bytes(),
        bool_text(caps.image_request),
        ",\"future\":{\"process_page_image\":false,\"page_description\":false,\"base_url\":false,\"login\":false,\"auth\":false,\"deeplink\":false,\"migration\":false}}}".spec_bytes(),
    ]
}

/// The `data` object that describes a source and what it supports.
pub open spec fn metadata_json(info: SourceInfo, caps: SourceCapabilities) -> Seq<u8> {
    flatten_bytes(metadata_parts(info, caps))
}

/// What a write of `payload` does to a buffer of `n` bytes: too large a
/// payload changes nothing and yields 0; otherwise the framed payload is
/// placed at the front, and the returned handle becomes the last response.
pub open spec fn wrote_response(
    n: nat,
    before: (u32, Seq<u8>),
    after: (u32, Seq<u8>),
    ok: bool,
    payload: Seq<u8>,
    r: u32,
) -> bool {
    if payload.len() + 16 > n {
        after == before && r == 0
    } else {
        after.1 == splice(before.1, 0, frame(ok, payload)) && after.0 == r
    }
}

pub fn empty_listings() -> (r: &'static [u8])
    ensures
        r@ == "{\"listings\":[]}".spec_bytes(),
{
    "{\"listings\":[]}".as_bytes()
}

pub fn empty_manga_list() -> (r: &'static [u8])
    ensures
        r@ == "{\"items\":[],\"page\":{\"nextCursor\":null,\"hasMore\":false}}".spec_bytes(),
{
    "{\"items\":[],\"page\":{\"nextCursor\":null,\"hasMore\":false}}".as_bytes()
}

pub fn empty_home() -> (r: &'static [u8])
    ensures
        r@ == "{\"sections\":[]}".spec_bytes(),
{
    "{\"sections\":[]}".as_bytes()
}

pub fn empty_filters() -> (r: &'static [u8])
    ensures
        r@ == "{\"filters\":[]}".spec_bytes(),
{
    "{\"filters\":[]}".as_bytes()
}

fn bool_json(value: bool) -> (r: &'static [u8])
    ensures
        r@ == bool_text(value),
{
    if value {
        "true".as_bytes()
    } else {
        "false".as_bytes()
    }
}

/// Address of the buffer's storage in linear memory: the handle the host
/// reads a response through.
///
/// Trusted: calls `<[u8; N]>::as_ptr`; nothing is promised of the value,
/// which depends on where the buffer was placed.
#[verifier::external_body]
fn storage_address<const N: usize>(bytes: &[u8; N]) -> u32 {
    bytes.as_ptr() as usize as u32
}

/// Writes the little-endian bytes of `x` at `pos`.
fn put_le_u32<const N: usize>(bytes: &mut [u8; N], pos: usize, x: u32)
    requires
        pos + 4 <= N,
    ensures
        final(bytes)@ == splice(old(bytes)@, pos as int, le_u32(x)),
{
    let b0 = (x & 0xff) as u8;
    let b1 = ((x >> 8) & 0xff) as u8;
    let b2 = ((x >> 16) & 0xff) as u8;
    let b3 = ((x >> 24) & 0xff) as u8;
    bytes[pos] = b0;
    bytes[pos + 1] = b1;
    bytes[pos + 2] = b2;
    bytes[pos + 3] = b3;
    assert(bytes@ =~= splice(old(bytes)@, pos as int, le_u32(x)));
}

/// Total length of `parts`, or `None` once it passes `cap`.
fn parts_len(parts: &[&[u8]], cap: usize) -> (r: Option<usize>)
    ensures
        match r {
            Some(n) => n == concat_parts(parts@).len() && n <= cap,
            None => concat_parts(parts@).len() > cap,
        },
{
    let mut total: usize = 0;
    let mut i: usize = 0;
    while i < parts.len()
        invariant
            0 <= i <= parts@.len(),
            total == concat_parts(parts@.take(i as int)).len(),
            total <= cap,
        decreases parts@.len() - i,
    {
        assert(parts@.take(i + 1).drop_last() =~= parts@.take(i as int));
        let len = parts[i].len();
        if len > cap - total {
            proof {
                lemma_concat_prefix_len(parts@, i + 1);
            }
            return None;
        }
        total = total + len;
        i = i + 1;
    }
    assert(parts@.take(parts@.len() as int) =~= parts@);
    Some(total)
}

proof fn lemma_concat_prefix_len(parts: Seq<&[u8]>, k: int)
    requires
        0 <= k <= parts.len(),
    ensures
        concat_parts(parts.take(k)).len() <= concat_parts(parts).len(),
    decreases parts.len(),
{
    if k < parts.len() {
        lemma_concat_prefix_len(parts.drop_last(), k);
        assert(parts.drop_last().take(k) =~= parts.take(k));
    } else {
        assert(parts.take(k) =~= parts);
    }
}

/// Copies `parts` one after another into `dst` from `pos`.
fn copy_parts(dst: &mut [u8], pos: usize, parts: &[&[u8]]) -> (end: usize)
    requires
        pos + concat_parts(parts@).len() <= old(dst)@.len(),
    ensures
        end == pos + concat_parts(parts@).len(),
        final(dst)@ == splice(old(dst)@, pos as int, concat_parts(parts@)),
{
    let mut cursor = pos;
    let mut i: usize = 0;
    while i < parts.len()
        invariant
            0 <= i <= parts@.len(),
            pos + concat_parts(parts@).len() <= old(dst)@.len(),
            dst@.len() == old(dst)@.len(),
            cursor == pos + concat_parts(parts@.take(i as int)).len(),
            dst@ == splice(old(dst)@, pos as int, concat_parts(parts@.take(i as int))),
        decreases parts@.len() - i,
    {
        let ghost before = concat_parts(parts@.take(i as int));
        assert(parts@.take(i + 1).drop_last() =~= parts@.take(i as int));
        proof {
            lemma_concat_prefix_len(parts@, i + 1);
            crate::json_utils::lemma_splice_concat(old(dst)@, pos as int, before, parts@[i as int]@);
        }
        let ok = write_bytes(dst, &mut cursor, parts[i]);
        assert(ok);
        i = i + 1;
    }
    assert(parts@.take(parts@.len() as int) =~= parts@);
    cursor
}

/// Fixed-size storage for the last response of a source.
pub struct ResultBuffer<const N: usize> {
    last_response: u32,
    bytes: [u8; N],
}

impl<const N: usize> View for ResultBuffer<N> {
    /// Handle of the last response (0 when none) and the storage bytes.
    type V = (u32, Seq<u8>);

    closed spec fn view(&self) -> (u32, Seq<u8>) {
        (self.last_response, self.bytes@)
    }
}

impl<const N: usize> ResultBuffer<N> {
    pub fn new() -> (r: Self)
        ensures
            r@.0 == 0,
            r@.1 == Seq::new(N as nat, |i: int| 0u8),
    {
        let r = ResultBuffer { last_response: 0, bytes: [0; N] };
        assert(r.bytes@ =~= Seq::new(N as nat, |i: int| 0u8));
        r
    }

    /// Frames `payload` at the front of the buffer and returns its handle,
    /// or 0 when it does not fit.
    pub fn write(&mut self, payload: &[u8], ok: bool) -> (r: u32)
        ensures
            final(self)@.1.len() == N,
            old(self)@.1.len() == N,
            wrote_response(N as nat, old(self)@, final(self)@, ok, payload@, r),
    {
        let parts: [&[u8]; 1] = [payload];
        let s: &[&[u8]] = &parts;
        proof {
            reveal_with_fuel(concat_parts, 2);
        }
        assert(concat_parts(s@) =~= payload@);
        self.write_parts(ok, s)
    }

    /// The storage always holds exactly `N` bytes.
    pub proof fn lemma_storage_len(&self)
        ensures
            self@.1.len() == N,
    {
    }

    pub fn last_ptr(&self) -> (r: u32)
        ensures
            r == self@.0,
    {
        self.last_response
    }

    /// Writes the success envelope for `operation` around `data_json`.
    pub fn write_success(&mut self, operation: &str, data_json: &[u8]) -> (r: u32)
        ensures
            final(self)@.1.len() == N,
            old(self)@.1.len() == N,
            wrote_response(
                N as nat,
                old(self)@,
                final(self)@,
                true,
                success_payload(operation.spec_bytes(), data_json@),
                r,
            ),
    {
        let parts: [&[u8]; 5] = [
            RESPONSE_PREFIX_OK.as_bytes(),
            operation.as_bytes(),
            DATA_PREFIX.as_bytes(),
            data_json,
            SUCCESS_SUFFIX.as_bytes(),
        ];
        let s: &[&[u8]] = &parts;
        proof {
            reveal_with_fuel(concat_parts, 6);
        }
        assert(concat_parts(s@) =~= success_payload(operation.spec_bytes(), data_json@));
        self.write_parts(true, s)
    }

    /// Writes the `source_info` success envelope describing a source.
    pub fn write_source_metadata(&mut self, info: &SourceInfo, capabilities: &SourceCapabilities)
        -> (r: u32)
        ensures
            final(self)@.1.len() == N,
            old(self)@.1.len() == N,
            wrote_response(
                N as nat,
                old(self)@,
                final(self)@,
                true,
                success_payload("source_info".spec_bytes(), metadata_json(*info, *capabilities)),
                r,
            ),
    {
        let parts: [&[u8]; 37] = [
            "{\"sourceInfo\":{\"id\":\"".as_bytes(),
            info.id.as_bytes(),
            "\",\"name\":\"".as_bytes(),
            info.name.as_bytes(),
            "\",\"version\":\"".as_bytes(),
            info.version.as_bytes(),
            "\",\"apiVersion\":\"".as_bytes(),
            info.api_version.as_bytes(),
            "\",\"language\":\"".as_bytes(),
            info.language.as_bytes(),
            "\",\"author\":\"".as_bytes(),
            info.author.as_bytes(),
            "\",\"description\":\"".as_bytes(),
            info.description.as_bytes(),
            "\",\"contentRating\":\"".as_bytes(),
            info.content_rating.as_bytes(),
            "\"},\"capabilities\":{\"search\":".as_bytes(),
            bool_json(capabilities.search),
            ",\"mangaDetail\":".as_bytes(),
            bool_json(capabilities.manga_detail),
            ",\"chapters\":".as_bytes(),
            bool_json(capabilities.chapters),
            ",\"pages\":".as_bytes(),
            bool_json(capabilities.pages),
            ",\"listings\":".as_bytes(),
            bool_json(capabilities.listings),
            ",\"mangaList\":".as_bytes(),
            bool_json(capabilities.manga_list),
            ",\"home\":".as_bytes(),
            bool_json(capabilities.home),
            ",\"filters\":".as_bytes(),
            bool_json(capabilities.filters),
            ",\"settings\":".as_bytes(),
            bool_json(capabilities.settings),
            ",\"imageRequest\":".as_bytes(),
            bool_json(capabilities.image_request),
            ",\"future\":{\"process_page_image\":false,\"page_description\":false,\"base_url\":false,\"login\":false,\"auth\":false,\"deeplink\":false,\"migration\":false}}}".as_bytes(),
        ];
        let s: &[&[u8]] = &parts;
        proof {
            let m = metadata_parts(*info, *capabilities);
            assert(s@.len() == m.len());
            assert forall|i: int| 0 <= i < s@.len() implies (#[trigger] s@[i])@ == m[i] by {}
            lemma_concat_parts_flatten(s@, m);
        }
        self.write_success_parts("source_info", s)
    }

    /// Writes a success envelope whose data is `data_parts` laid end to end.
    pub fn write_success_parts(&mut self, operation: &str, data_parts: &[&[u8]]) -> (r: u32)
        ensures
            final(self)@.1.len() == N,
            old(self)@.1.len() == N,
            wrote_response(
                N as nat,
                old(self)@,
                final(self)@,
                true,
                success_payload(operation.spec_bytes(), concat_parts(data_parts@)),
                r,
            ),
    {
        let prefix: [&[u8]; 3] = [
            RESPONSE_PREFIX_OK.as_bytes(),
            operation.as_bytes(),
            DATA_PREFIX.as_bytes(),
        ];
        let suffix: [&[u8]; 1] = [SUCCESS_SUFFIX.as_bytes()];
        let p: &[&[u8]] = &prefix;
        let q: &[&[u8]] = &suffix;
        proof {
            reveal_with_fuel(concat_parts, 4);
        }
        assert(concat_parts(p@) + concat_parts(data_parts@) + concat_parts(q@) =~= success_payload(
            operation.spec_bytes(),
            concat_parts(data_parts@),
        ));
        self.write_nested_parts(true, p, data_parts, q)
    }

    /// Writes the error envelope for `operation`.
    pub fn write_error(&mut self, operation: &str, code: &str, message: &str) -> (r: u32)
        ensures
            final(self)@.1.len() == N,
            old(self)@.1.len() == N,
            wrote_response(
                N as nat,
                old(self)@,
                final(self)@,
                false,
                error_payload(operation.spec_bytes(), code.spec_bytes(), message.spec_bytes()),
                r,
            ),
    {
        let parts: [&[u8]; 7] = [
            RESPONSE_PREFIX_ERROR.as_bytes(),
            operation.as_bytes(),
            ERROR_PREFIX.as_bytes(),
            code.as_bytes(),
            ERROR_MESSAGE_PREFIX.as_bytes(),
            message.as_bytes(),
            ERROR_SUFFIX.as_bytes(),
        ];
        let s: &[&[u8]] = &parts;
        proof {
            reveal_with_fuel(concat_parts, 8);
        }
        assert(concat_parts(s@) =~= error_payload(
            operation.spec_bytes(),
            code.spec_bytes(),
            message.spec_bytes(),
        ));
        self.write_parts(false, s)
    }

    /// Forgets the last response when `result_ptr` is its handle.
    pub fn free(&mut self, result_ptr: u32)
        ensures
            final(self)@.1 == old(self)@.1,
            final(self)@.0 == if result_ptr == old(self)@.0 {
                0
            } else {
                old(self)@.0
            },
    {
        if result_ptr == self.last_response {
            self.last_response = 0;
        }
    }

    fn write_header(&mut self, ok: bool, payload_len: usize)
        requires
            16 <= N,
        ensures
            final(self)@.0 == old(self)@.0,
            final(self)@.1 == splice(
                old(self)@.1,
                0,
                le_u32(KOMA_MAGIC) + le_u32(
                    if ok {
                        1u32
                    } else {
                        0u32
                    },
                ) + le_u32(payload_len as u32) + le_u32(0),
            ),
    {
        let flags: u32 = if ok {
            1
        } else {
            0
        };
        put_le_u32(&mut self.bytes, 0, KOMA_MAGIC);
        put_le_u32(&mut self.bytes, 4, flags);
        put_le_u32(&mut self.bytes, 8, payload_len as u32);
        put_le_u32(&mut self.bytes, 12, 0);
        assert(self.bytes@ =~= splice(
            old(self)@.1,
            0,
            le_u32(KOMA_MAGIC) + le_u32(flags) + le_u32(payload_len as u32) + le_u32(0),
        ));
    }

    fn write_parts(&mut self, ok: bool, parts: &[&[u8]]) -> (r: u32)
        ensures
            final(self)@.1.len() == N,
            old(self)@.1.len() == N,
            wrote_response(N as nat, old(self)@, final(self)@, ok, concat_parts(parts@), r),
    {
        let empty: [&[u8]; 0] = [];
        let e: &[&[u8]] = &empty;
        assert(concat_parts(e@) =~= Seq::<u8>::empty());
        assert(concat_parts(parts@) + concat_parts(e@) + concat_parts(e@) =~= concat_parts(
            parts@,
        ));
        self.write_nested_parts(ok, parts, e, e)
    }

    fn write_nested_parts(
        &mut self,
        ok: bool,
        prefix: &[&[u8]],
        middle: &[&[u8]],
        suffix: &[&[u8]],
    ) -> (r: u32)
        ensures
            final(self)@.1.len() == N,
            old(self)@.1.len() == N,
            wrote_response(
                N as nat,
                old(self)@,
                final(self)@,
                ok,
                concat_parts(prefix@) + concat_parts(middle@) + concat_parts(suffix@),
                r,
            ),
    {
        let ghost payload = concat_parts(prefix@) + concat_parts(middle@) + concat_parts(suffix@);
        if N < 16 {
            return 0;
        }
        let cap = N - 16;
        let a = match parts_len(prefix, cap) {
            Some(a) => a,
            None => return 0,
        };
        let b = match parts_len(middle, cap - a) {
            Some(b) => b,
            None => return 0,
        };
        let c = match parts_len(suffix, cap - a - b) {
            Some(c) => c,
            None => return 0,
        };
        let payload_len = a + b + c;
        self.write_header(ok, payload_len);
        let ghost header = le_u32(KOMA_MAGIC) + le_u32(
            if ok {
                1u32
            } else {
                0u32
            },
        ) + le_u32(payload_len as u32) + le_u32(0);
        let ghost b0 = old(self)@.1;
        let p1 = copy_parts(&mut self.bytes, 16, prefix);
        let p2 = copy_parts(&mut self.bytes, p1, middle);
        let p3 = copy_parts(&mut self.bytes, p2, suffix);
        proof {
            let x = concat_parts(prefix@);
            let y = concat_parts(middle@);
            let z = concat_parts(suffix@);
            crate::json_utils::lemma_splice_concat(b0, 0, header, x);
            crate::json_utils::lemma_splice_concat(b0, 0, header + x, y);
            crate::json_utils::lemma_splice_concat(b0, 0, header + x + y, z);
            assert(header + x + y + z =~= frame(ok, payload));
        }
        self.last_response = storage_address(&self.bytes);
        self.last_response
    }
}

/// The 32-bit word whose little-endian bytes start at `i`.
pub open spec fn read_le_u32(s: Seq<u8>, i: int) -> u32 {
    (s[i] as u32) | ((s[i + 1] as u32) << 8u32) | ((s[i + 2] as u32) << 16u32) | ((s[i + 3] as u32)
        << 24u32)
}

/// Reading a word back from its little-endian bytes gives the word.
pub proof fn lemma_le_u32_reads_back(x: u32)
    ensures
        read_le_u32(le_u32(x), 0) == x,
{
    let b = le_u32(x);
    assert(b[0] == (x & 0xff) as u8 && b[1] == ((x >> 8u32) & 0xff) as u8 && b[2] == ((x >> 16u32)
        & 0xff) as u8 && b[3] == ((x >> 24u32) & 0xff) as u8);
    assert(((x & 0xff) as u8 as u32) | ((((x >> 8u32) & 0xff) as u8 as u32) << 8u32) | ((((x
        >> 16u32) & 0xff) as u8 as u32) << 16u32) | ((((x >> 24u32) & 0xff) as u8 as u32) << 24u32)
        == x) by (bit_vector);
}

/// What the host reads of a response that was written: the header words
/// give back the magic, the ok flag and the payload's length, and the
/// payload follows the header unchanged. A payload too large for the
/// buffer leaves it as it was and yields no handle.
pub proof fn lemma_response_reads_back(
    n: nat,
    before: (u32, Seq<u8>),
    after: (u32, Seq<u8>),
    ok: bool,
    payload: Seq<u8>,
    r: u32,
)
    requires
        before.1.len() == n,
        wrote_response(n, before, after, ok, payload, r),
    ensures
        payload.len() + 16 <= n ==> {
            &&& after.0 == r
            &&& after.1.len() == n
            &&& read_le_u32(after.1, 0) == KOMA_MAGIC
            &&& read_le_u32(after.1, 4) == if ok {
                1u32
            } else {
                0u32
            }
            &&& read_le_u32(after.1, 8) == payload.len() as u32
            &&& read_le_u32(after.1, 12) == 0
            &&& after.1.subrange(16, 16 + payload.len() as int) == payload
        },
        payload.len() + 16 > n ==> after == before && r == 0,
{
    if payload.len() + 16 <= n {
        let f = frame(ok, payload);
        let flag: u32 = if ok {
            1u32
        } else {
            0u32
        };
        assert(after.1 =~= f + before.1.skip(f.len() as int));
        lemma_le_u32_reads_back(KOMA_MAGIC);
        lemma_le_u32_reads_back(flag);
        lemma_le_u32_reads_back(payload.len() as u32);
        lemma_le_u32_reads_back(0);
        assert(after.1.subrange(0, 4) =~= le_u32(KOMA_MAGIC));
        assert(after.1.subrange(4, 8) =~= le_u32(flag));
        assert(after.1.subrange(8, 12) =~= le_u32(payload.len() as u32));
        assert(after.1.subrange(12, 16) =~= le_u32(0));
        assert(after.1.subrange(16, 16 + payload.len() as int) =~= payload);
        assert(read_le_u32(after.1, 0) == read_le_u32(after.1.subrange(0, 4), 0));
        assert(read_le_u32(after.1, 4) == read_le_u32(after.1.subrange(4, 8), 0));
        assert(read_le_u32(after.1, 8) == read_le_u32(after.1.subrange(8, 12), 0));
        assert(read_le_u32(after.1, 12) == read_le_u32(after.1.subrange(12, 16), 0));
    }
}

/// Writing a success answer from parts leaves the same bytes in the buffer
/// as writing their concatenation in one piece, and where the answer does
/// not fit, both leave the buffer as it was and return 0.
pub proof fn law_success_parts_as_concatenation(
    n: nat,
    before: (u32, Seq<u8>),
    operation: Seq<u8>,
    parts: Seq<&[u8]>,
    data: Seq<u8>,
    after_parts: (u32, Seq<u8>),
    r_parts: u32,
    after_whole: (u32, Seq<u8>),
    r_whole: u32,
)
    requires
        data == concat_parts(parts),
        wrote_response(n, before, after_parts, true, success_payload(operation, concat_parts(parts)), r_parts),
        wrote_response(n, before, after_whole, true, success_payload(operation, data), r_whole),
    ensures
        after_parts.1 == after_whole.1,
        success_payload(operation, data).len() + 16 > n ==> after_parts == before && after_whole == before && r_parts == 0
            && r_whole == 0,
{
}

} // verus!
