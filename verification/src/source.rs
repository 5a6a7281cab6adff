//! What a source is (its metadata, capabilities and operations), the typed
//! requests it receives, its errors, and the dispatch from a host request
//! to the operation and into the response buffer.
use vstd::prelude::*;
use vstd::string::StringSliceAdditionalSpecFns;
use crate::request::{has_number_field, has_string_field, has_text, Request};
use crate::result::{error_payload, metadata_json, success_payload, wrote_response, ResultBuffer};
use crate::json_utils::splice;

verus! {

/// Descriptive metadata a source reports about itself.
#[derive(Clone, Copy)]
pub struct SourceInfo {
    pub id: &'static str,
    pub name: &'static str,
    pub version: &'static str,
    pub api_version: &'static str,
    pub language: &'static str,
    pub author: &'static str,
    pub description: &'static str,
    pub content_rating: &'static str,
}

/// Which operations a source supports.
#[derive(Clone, Copy)]
pub struct SourceCapabilities {
    pub search: bool,
    pub manga_detail: bool,
    pub chapters: bool,
    pub pages: bool,
    pub listings: bool,
    pub manga_list: bool,
    pub home: bool,
    pub filters: bool,
    pub settings: bool,
    pub credentials: bool,
    pub image_request: bool,
}

impl SourceCapabilities {
    /// Search, detail, chapters and pages only.
    #[allow(non_snake_case)]
    pub fn CORE() -> (r: Self)
        ensures
            r == core_capabilities(),
    {
        Self {
        search: true,
        manga_detail: true,
        chapters: true,
        pages: true,
        listings: false,
        manga_list: false,
        home: false,
        filters: false,
        settings: false,
        credentials: false,
        image_request: false,
        }
    }

    /// Every operation of the current surface except credentials.
    #[allow(non_snake_case)]
    pub fn FULL_V02_FIXTURE() -> (r: Self)
        ensures
            r == full_capabilities(),
    {
        Self {
        search: true,
        manga_detail: true,
        chapters: true,
        pages: true,
        listings: true,
        manga_list: true,
        home: true,
        filters: true,
        settings: true,
        credentials: false,
        image_request: true,
        }
    }
}

pub open spec fn core_capabilities() -> SourceCapabilities {
    SourceCapabilities {
        search: true,
        manga_detail: true,
        chapters: true,
        pages: true,
        listings: false,
        manga_list: false,
        home: false,
        filters: false,
        settings: false,
        credentials: false,
        image_request: false,
    }
}

pub open spec fn full_capabilities() -> SourceCapabilities {
    SourceCapabilities {
        search: true,
        manga_detail: true,
        chapters: true,
        pages: true,
        listings: true,
        manga_list: true,
        home: true,
        filters: true,
        settings: true,
        credentials: false,
        image_request: true,
    }
}

/// The request of a `search` operation.
pub struct SearchRequest<'a> {
    request: Request<'a>,
}

/// The request of a `get_manga` operation.
pub struct MangaId<'a> {
    request: Request<'a>,
}

/// The request of a `get_pages` operation.
pub struct ChapterId<'a> {
    request: Request<'a>,
}

/// The request of a `get_chapters` operation.
pub struct ChapterListRequest<'a> {
    request: Request<'a>,
}

/// The request of a `get_listings` operation.
pub struct ListingsRequest<'a> {
    request: Request<'a>,
}

/// The request of a `get_manga_list` operation.
pub struct MangaListRequest<'a> {
    request: Request<'a>,
}

/// The request of a `get_home` operation.
pub struct HomeRequest<'a> {
    request: Request<'a>,
}

/// The request of a `get_filters` operation.
pub struct FiltersRequest<'a> {
    request: Request<'a>,
}

/// The request of a `get_settings` operation.
pub struct SettingsRequest<'a> {
    request: Request<'a>,
}

/// The request of a `get_image_request` operation.
pub struct ImageRequestInput<'a> {
    request: Request<'a>,
}

/// JSON text returned as the `data` of a successful operation.
pub struct JsonPayload {
    bytes: &'static [u8],
}

impl View for JsonPayload {
    type V = Seq<u8>;

    closed spec fn view(&self) -> Seq<u8> {
        self.bytes@
    }
}

impl JsonPayload {
    pub fn new(bytes: &'static [u8]) -> (r: Self)
        ensures
            r@ == bytes@,
    {
        Self { bytes }
    }

    pub fn bytes(&self) -> (r: &'static [u8])
        ensures
            r@ == self@,
    {
        self.bytes
    }
}

/// Machine-readable kind of a source failure.
#[derive(Clone, Copy)]
pub enum SourceErrorCode {
    Unimplemented,
    InvalidRequest,
    NotFound,
    Cancelled,
    Timeout,
    NetworkDisabled,
    PermissionDenied,
    ParseError,
    SourceError,
    InternalError,
}

/// The wire name of an error code.
pub open spec fn code_name(code: SourceErrorCode) -> Seq<char> {
    match code {
        SourceErrorCode::Unimplemented => "unimplemented"@,
        SourceErrorCode::InvalidRequest => "invalid_request"@,
        SourceErrorCode::NotFound => "not_found"@,
        SourceErrorCode::Cancelled => "cancelled"@,
        SourceErrorCode::Timeout => "timeout"@,
        SourceErrorCode::NetworkDisabled => "network_disabled"@,
        SourceErrorCode::PermissionDenied => "permission_denied"@,
        SourceErrorCode::ParseError => "parse_error"@,
        SourceErrorCode::SourceError => "source_error"@,
        SourceErrorCode::InternalError => "internal_error"@,
    }
}

impl SourceErrorCode {
    pub fn as_str(&self) -> (r: &'static str)
        ensures
            r@ == code_name(*self),
    {
        match self {
            Self::Unimplemented => "unimplemented",
            Self::InvalidRequest => "invalid_request",
            Self::NotFound => "not_found",
            Self::Cancelled => "cancelled",
            Self::Timeout => "timeout",
            Self::NetworkDisabled => "network_disabled",
            Self::PermissionDenied => "permission_denied",
            Self::ParseError => "parse_error",
            Self::SourceError => "source_error",
            Self::InternalError => "internal_error",
        }
    }
}

/// A failed operation: its code and a human-readable message.
pub struct SourceError {
    code: SourceErrorCode,
    message: &'static str,
}

impl SourceError {
    pub closed spec fn spec_code(&self) -> SourceErrorCode {
        self.code
    }

    pub closed spec fn spec_message(&self) -> &'static str {
        self.message
    }

    pub fn new(code: SourceErrorCode, message: &'static str) -> (r: Self)
        ensures
            r.spec_code() == code,
            r.spec_message() == message,
    {
        Self { code, message }
    }

    pub fn unimplemented() -> (r: Self)
        ensures
            r.spec_code() == SourceErrorCode::Unimplemented,
            r.spec_message() == "operation not implemented",
    {
        Self::new(SourceErrorCode::Unimplemented, "operation not implemented")
    }

    pub fn invalid_request(message: &'static str) -> (r: Self)
        ensures
            r.spec_code() == SourceErrorCode::InvalidRequest,
            r.spec_message() == message,
    {
        Self::new(SourceErrorCode::InvalidRequest, message)
    }

    pub fn not_found(message: &'static str) -> (r: Self)
        ensures
            r.spec_code() == SourceErrorCode::NotFound,
            r.spec_message() == message,
    {
        Self::new(SourceErrorCode::NotFound, message)
    }

    pub fn cancelled() -> (r: Self)
        ensures
            r.spec_code() == SourceErrorCode::Cancelled,
            r.spec_message() == "operation cancelled",
    {
        Self::new(SourceErrorCode::Cancelled, "operation cancelled")
    }

    pub fn timeout(message: &'static str) -> (r: Self)
        ensures
            r.spec_code() == SourceErrorCode::Timeout,
            r.spec_message() == message,
    {
        Self::new(SourceErrorCode::Timeout, message)
    }

    pub fn network_disabled(message: &'static str) -> (r: Self)
        ensures
            r.spec_code() == SourceErrorCode::NetworkDisabled,
            r.spec_message() == message,
    {
        Self::new(SourceErrorCode::NetworkDisabled, message)
    }

    pub fn permission_denied(message: &'static str) -> (r: Self)
        ensures
            r.spec_code() == SourceErrorCode::PermissionDenied,
            r.spec_message() == message,
    {
        Self::new(SourceErrorCode::PermissionDenied, message)
    }

    pub fn parse_error(message: &'static str) -> (r: Self)
        ensures
            r.spec_code() == SourceErrorCode::ParseError,
            r.spec_message() == message,
    {
        Self::new(SourceErrorCode::ParseError, message)
    }

    pub fn source_error(message: &'static str) -> (r: Self)
        ensures
            r.spec_code() == SourceErrorCode::SourceError,
            r.spec_message() == message,
    {
        Self::new(SourceErrorCode::SourceError, message)
    }

    pub fn internal_error(message: &'static str) -> (r: Self)
        ensures
            r.spec_code() == SourceErrorCode::InternalError,
            r.spec_message() == message,
    {
        Self::new(SourceErrorCode::InternalError, message)
    }

    /// Wire name of the error's code.
    pub fn code(&self) -> (r: &'static str)
        ensures
            r@ == code_name(self.spec_code()),
    {
        self.code.as_str()
    }

    pub fn message(&self) -> (r: &'static str)
        ensures
            r == self.spec_message(),
    {
        self.message
    }
}

/// The outcome of an operation: JSON data, or an error.
pub type SourceResult = core::result::Result<JsonPayload, SourceError>;

/// A manga source. Implementors provide metadata and the four core
/// operations; the optional ones answer "unimplemented" unless overridden.
pub trait Source {
    fn info(&self) -> SourceInfo;

    fn capabilities(&self) -> (r: SourceCapabilities)
        default_ensures
            r == core_capabilities(),
    {
        SourceCapabilities::CORE()
    }

    fn search(&self, request: SearchRequest<'_>) -> SourceResult;

    fn get_manga(&self, id: MangaId<'_>) -> SourceResult;

    fn get_chapters(&self, request: ChapterListRequest<'_>) -> SourceResult;

    fn get_pages(&self, id: ChapterId<'_>) -> SourceResult;

    fn get_listings(&self, _request: ListingsRequest<'_>) -> (r: SourceResult)
        default_ensures
            r matches Err(e) && e.spec_code() == SourceErrorCode::Unimplemented && e.spec_message()
                == "operation not implemented",
    {
        Err(SourceError::unimplemented())
    }

    fn get_manga_list(&self, _request: MangaListRequest<'_>) -> (r: SourceResult)
        default_ensures
            r matches Err(e) && e.spec_code() == SourceErrorCode::Unimplemented && e.spec_message()
                == "operation not implemented",
    {
        Err(SourceError::unimplemented())
    }

    fn get_home(&self, _request: HomeRequest<'_>) -> (r: SourceResult)
        default_ensures
            r matches Err(e) && e.spec_code() == SourceErrorCode::Unimplemented && e.spec_message()
                == "operation not implemented",
    {
        Err(SourceError::unimplemented())
    }

    fn get_filters(&self, _request: FiltersRequest<'_>) -> (r: SourceResult)
        default_ensures
            r matches Err(e) && e.spec_code() == SourceErrorCode::Unimplemented && e.spec_message()
                == "operation not implemented",
    {
        Err(SourceError::unimplemented())
    }

    fn get_settings(&self, _request: SettingsRequest<'_>) -> (r: SourceResult)
        default_ensures
            r matches Err(e) && e.spec_code() == SourceErrorCode::Unimplemented && e.spec_message()
                == "operation not implemented",
    {
        Err(SourceError::unimplemented())
    }

    fn get_image_request(&self, _request: ImageRequestInput<'_>) -> (r: SourceResult)
        default_ensures
            r matches Err(e) && e.spec_code() == SourceErrorCode::Unimplemented && e.spec_message()
                == "operation not implemented",
    {
        Err(SourceError::unimplemented())
    }
}

/// A typed request for one operation, built from the raw request.
pub trait OperationRequest<'a>: Sized {
    /// Wire name of the operation.
    const OPERATION: &'static str;

    /// The raw request text the typed request wraps.
    spec fn request_text(&self) -> Seq<u8>;

    fn from_request(request: Request<'a>) -> (r: Self)
        ensures
            r.request_text() == request@,
    ;
}

impl<'a> SearchRequest<'a> {
    /// The request carries `"query":"<query>"`.
    pub fn query_is(&self, query: &[u8]) -> (r: bool)
        ensures
            r == has_string_field(self.request_text(), "query".spec_bytes(), query@),
    {
        self.request.contains_json_string("query".as_bytes(), query)
    }

    /// The request carries `"limit":<limit>`.
    pub fn limit_is(&self, limit: u32) -> (r: bool)
        ensures
            r == has_number_field(self.request_text(), "limit".spec_bytes(), limit as nat),
    {
        self.request.contains_json_number("limit".as_bytes(), limit)
    }
}

impl<'a> MangaId<'a> {
    /// The request carries `"mangaId":"<id>"`.
    pub fn is(&self, id: &[u8]) -> (r: bool)
        ensures
            r == has_string_field(self.request_text(), "mangaId".spec_bytes(), id@),
    {
        self.request.contains_json_string("mangaId".as_bytes(), id)
    }
}

impl<'a> ChapterId<'a> {
    /// The request carries `"chapterId":"<id>"`.
    pub fn is(&self, id: &[u8]) -> (r: bool)
        ensures
            r == has_string_field(self.request_text(), "chapterId".spec_bytes(), id@),
    {
        self.request.contains_json_string("chapterId".as_bytes(), id)
    }
}

impl<'a> ChapterListRequest<'a> {
    /// The request carries `"mangaId":"<id>"`.
    pub fn manga_id_is(&self, id: &[u8]) -> (r: bool)
        ensures
            r == has_string_field(self.request_text(), "mangaId".spec_bytes(), id@),
    {
        self.request.contains_json_string("mangaId".as_bytes(), id)
    }
}

impl<'a> ListingsRequest<'a> {
    pub fn raw_contains(&self, needle: &[u8]) -> (r: bool)
        ensures
            r == has_text(self.request_text(), needle@),
    {
        self.request.contains(needle)
    }
}

impl<'a> MangaListRequest<'a> {
    /// The request carries `"listingId":"<id>"`.
    pub fn listing_id_is(&self, id: &[u8]) -> (r: bool)
        ensures
            r == has_string_field(self.request_text(), "listingId".spec_bytes(), id@),
    {
        self.request.contains_json_string("listingId".as_bytes(), id)
    }

    /// The request carries `"limit":<limit>`.
    pub fn limit_is(&self, limit: u32) -> (r: bool)
        ensures
            r == has_number_field(self.request_text(), "limit".spec_bytes(), limit as nat),
    {
        self.request.contains_json_number("limit".as_bytes(), limit)
    }
}

impl<'a> HomeRequest<'a> {
    pub fn raw_contains(&self, needle: &[u8]) -> (r: bool)
        ensures
            r == has_text(self.request_text(), needle@),
    {
        self.request.contains(needle)
    }
}

impl<'a> FiltersRequest<'a> {
    pub fn raw_contains(&self, needle: &[u8]) -> (r: bool)
        ensures
            r == has_text(self.request_text(), needle@),
    {
        self.request.contains(needle)
    }
}

impl<'a> SettingsRequest<'a> {
    pub fn raw_contains(&self, needle: &[u8]) -> (r: bool)
        ensures
            r == has_text(self.request_text(), needle@),
    {
        self.request.contains(needle)
    }
}

impl<'a> ImageRequestInput<'a> {
    /// The request carries `"pageId":"<id>"`.
    pub fn page_id_is(&self, id: &[u8]) -> (r: bool)
        ensures
            r == has_string_field(self.request_text(), "pageId".spec_bytes(), id@),
    {
        self.request.contains_json_string("pageId".as_bytes(), id)
    }
}

impl<'a> OperationRequest<'a> for SearchRequest<'a> {
    const OPERATION: &'static str = "search";

    closed spec fn request_text(&self) -> Seq<u8> {
        self.request@
    }

    fn from_request(request: Request<'a>) -> (r: Self) {
        SearchRequest { request }
    }
}

impl<'a> OperationRequest<'a> for MangaId<'a> {
    const OPERATION: &'static str = "get_manga";

    closed spec fn request_text(&self) -> Seq<u8> {
        self.request@
    }

    fn from_request(request: Request<'a>) -> (r: Self) {
        MangaId { request }
    }
}

impl<'a> OperationRequest<'a> for ChapterListRequest<'a> {
    const OPERATION: &'static str = "get_chapters";

    closed spec fn request_text(&self) -> Seq<u8> {
        self.request@
    }

    fn from_request(request: Request<'a>) -> (r: Self) {
        ChapterListRequest { request }
    }
}

impl<'a> OperationRequest<'a> for ChapterId<'a> {
    const OPERATION: &'static str = "get_pages";

    closed spec fn request_text(&self) -> Seq<u8> {
        self.request@
    }

    fn from_request(request: Request<'a>) -> (r: Self) {
        ChapterId { request }
    }
}

impl<'a> OperationRequest<'a> for ListingsRequest<'a> {
    const OPERATION: &'static str = "get_listings";

    closed spec fn request_text(&self) -> Seq<u8> {
        self.request@
    }

    fn from_request(request: Request<'a>) -> (r: Self) {
        ListingsRequest { request }
    }
}

impl<'a> OperationRequest<'a> for MangaListRequest<'a> {
    const OPERATION: &'static str = "get_manga_list";

    closed spec fn request_text(&self) -> Seq<u8> {
        self.request@
    }

    fn from_request(request: Request<'a>) -> (r: Self) {
        MangaListRequest { request }
    }
}

impl<'a> OperationRequest<'a> for HomeRequest<'a> {
    const OPERATION: &'static str = "get_home";

    closed spec fn request_text(&self) -> Seq<u8> {
        self.request@
    }

    fn from_request(request: Request<'a>) -> (r: Self) {
        HomeRequest { request }
    }
}

impl<'a> OperationRequest<'a> for FiltersRequest<'a> {
    const OPERATION: &'static str = "get_filters";

    closed spec fn request_text(&self) -> Seq<u8> {
        self.request@
    }

    fn from_request(request: Request<'a>) -> (r: Self) {
        FiltersRequest { request }
    }
}

impl<'a> OperationRequest<'a> for SettingsRequest<'a> {
    const OPERATION: &'static str = "get_settings";

    closed spec fn request_text(&self) -> Seq<u8> {
        self.request@
    }

    fn from_request(request: Request<'a>) -> (r: Self) {
        SettingsRequest { request }
    }
}

impl<'a> OperationRequest<'a> for ImageRequestInput<'a> {
    const OPERATION: &'static str = "get_image_request";

    closed spec fn request_text(&self) -> Seq<u8> {
        self.request@
    }

    fn from_request(request: Request<'a>) -> (r: Self) {
        ImageRequestInput { request }
    }
}

/// A write of `payload` whose handle is not looked at: either nothing
/// changed (too large) or the framed payload sits at the front.
pub open spec fn stored_response(
    n: nat,
    before: (u32, Seq<u8>),
    after: (u32, Seq<u8>),
    ok: bool,
    payload: Seq<u8>,
) -> bool {
    exists|h: u32| wrote_response(n, before, after, ok, payload, h)
}

/// The envelope an operation's result is answered with.
pub open spec fn result_payload(operation: Seq<u8>, result: SourceResult) -> (bool, Seq<u8>) {
    match result {
        Ok(data) => (true, success_payload(operation, data@)),
        Err(e) => (
            false,
            error_payload(
                operation,
                vstd::utf8::encode_utf8(code_name(e.spec_code())),
                e.spec_message().spec_bytes(),
            ),
        ),
    }
}

/// Whether a request reaches the source: it is there, asks for
/// `operation`, and the host has not cancelled.
pub open spec fn accepted(request: Option<Seq<u8>>, operation: &'static str, cancelled: bool) -> bool {
    match request {
        Some(text) => has_string_field(text, "operation".spec_bytes(), operation.spec_bytes()) && !cancelled,
        None => false,
    }
}

/// What dispatching an operation does, whatever the source answered:
/// a missing request, a request for another operation and a cancelled
/// host are answered with fixed errors; otherwise the source's result is
/// written. The returned handle is the buffer's last response in the error
/// cases and the write's handle otherwise.
pub open spec fn dispatched(
    n: nat,
    before: (u32, Seq<u8>),
    after: (u32, Seq<u8>),
    request: Option<Seq<u8>>,
    operation: &'static str,
    cancelled: bool,
    r: u32,
) -> bool {
    match request {
        None => stored_response(
            n,
            before,
            after,
            false,
            error_payload(
                "unknown".spec_bytes(),
                "invalid_request".spec_bytes(),
                "empty request".spec_bytes(),
            ),
        ) && r == after.0,
        Some(text) => if !has_string_field(
            text,
            "operation".spec_bytes(),
            operation.spec_bytes(),
        ) {
            stored_response(
                n,
                before,
                after,
                false,
                error_payload(
                    operation.spec_bytes(),
                    "invalid_request".spec_bytes(),
                    "unexpected operation".spec_bytes(),
                ),
            ) && r == after.0
        } else if cancelled {
            stored_response(
                n,
                before,
                after,
                false,
                error_payload(
                    operation.spec_bytes(),
                    "cancelled".spec_bytes(),
                    "host cancelled".spec_bytes(),
                ),
            ) && r == after.0
        } else {
            exists|res: SourceResult|
                wrote_response(
                    n,
                    before,
                    after,
                    #[trigger] result_payload(operation.spec_bytes(), res).0,
                    result_payload(operation.spec_bytes(), res).1,
                    r,
                )
        },
    }
}

/// The status of an initialisation: -2 when the host cancelled, otherwise
/// 0 for a non-empty manifest and -1 for an empty one.
pub open spec fn init_code(manifest_len: u32, cancelled: bool) -> i32 {
    if cancelled {
        -2i32
    } else if manifest_len > 0 {
        0i32
    } else {
        -1i32
    }
}

/// The status of an initialisation with a manifest of `manifest_len` bytes.
pub fn init_status(manifest_len: u32, cancelled: bool) -> (r: i32)
    ensures
        r == init_code(manifest_len, cancelled),
{
    if cancelled {
        return -2;
    }
    if manifest_len > 0 {
        0
    } else {
        -1
    }
}

/// Result of initialising a source: -2 when the host cancelled, otherwise
/// 0 for a non-empty manifest and -1 for an empty one.
pub fn init<S: Source>(source: &S, manifest_len: u32, cancelled: bool) -> (r: i32)
    ensures
        r == init_code(manifest_len, cancelled),
{
    let _ = source.info();
    let _ = source.capabilities();
    init_status(manifest_len, cancelled)
}

/// Checks the request against the operation and the host's cancel flag,
/// answering the failures in the buffer.
fn prepare_operation<'a, R: OperationRequest<'a>, const N: usize>(
    buffer: &mut ResultBuffer<N>,
    request: Option<Request<'a>>,
    operation: &'static str,
    cancelled: bool,
) -> (r: Option<R>)
    ensures
        final(buffer)@.1.len() == N,
        match request {
            None => r is None && stored_response(
                N as nat,
                old(buffer)@,
                final(buffer)@,
                false,
                error_payload(
                    "unknown".spec_bytes(),
                    "invalid_request".spec_bytes(),
                    "empty request".spec_bytes(),
                ),
            ),
            Some(q) => if !has_string_field(
                q@,
                "operation".spec_bytes(),
                operation.spec_bytes(),
            ) {
                r is None && stored_response(
                    N as nat,
                    old(buffer)@,
                    final(buffer)@,
                    false,
                    error_payload(
                        operation.spec_bytes(),
                        "invalid_request".spec_bytes(),
                        "unexpected operation".spec_bytes(),
                    ),
                )
            } else if cancelled {
                r is None && stored_response(
                    N as nat,
                    old(buffer)@,
                    final(buffer)@,
                    false,
                    error_payload(
                        operation.spec_bytes(),
                        "cancelled".spec_bytes(),
                        "host cancelled".spec_bytes(),
                    ),
                )
            } else {
                r matches Some(x) && x.request_text() == q@ && final(buffer)@ == old(buffer)@
            },
        },
{
    let request = match request {
        None => {
            let _ = buffer.write_error("unknown", "invalid_request", "empty request");
            return None;
        },
        Some(q) => q,
    };
    if !request.contains_json_string("operation".as_bytes(), operation.as_bytes()) {
        let _ = buffer.write_error(operation, "invalid_request", "unexpected operation");
        return None;
    }
    if cancelled {
        let _ = buffer.write_error(operation, "cancelled", "host cancelled");
        return None;
    }
    proof {
        buffer.lemma_storage_len();
    }
    Some(R::from_request(request))
}

/// Answers `result` in the buffer: the success envelope around its data,
/// or the error envelope with its code and message.
pub fn write_source_result<const N: usize>(
    buffer: &mut ResultBuffer<N>,
    operation: &str,
    result: SourceResult,
) -> (r: u32)
    ensures
        final(buffer)@.1.len() == N,
        wrote_response(
            N as nat,
            old(buffer)@,
            final(buffer)@,
            result_payload(operation.spec_bytes(), result).0,
            result_payload(operation.spec_bytes(), result).1,
            r,
        ),
{
    match result {
        Ok(data) => buffer.write_success(operation, data.bytes()),
        Err(error) => buffer.write_error(operation, error.code(), error.message()),
    }
}


/// The text of the request, if there is one.
pub open spec fn request_text_of(request: Option<Request<'_>>) -> Option<Seq<u8>> {
    match request {
        Some(q) => Some(q@),
        None => None,
    }
}

/// Builds the `source_info` response from what the source reports.
pub fn source_info<S: Source, const N: usize>(source: &S, buffer: &mut ResultBuffer<N>) -> (r: u32)
    ensures
        final(buffer)@.1.len() == N,
        exists|info: SourceInfo, caps: SourceCapabilities|
            #[trigger] call_ensures(S::info, (source,), info) && #[trigger] call_ensures(S::capabilities, (source,), caps)
                && wrote_response(
                N as nat,
                old(buffer)@,
                final(buffer)@,
                true,
                success_payload("source_info".spec_bytes(), metadata_json(info, caps)),
                r,
            ),
{
    let info = source.info();
    let capabilities = source.capabilities();
    let r = buffer.write_source_metadata(&info, &capabilities);
    assert(wrote_response(
        N as nat,
        old(buffer)@,
        final(buffer)@,
        true,
        success_payload("source_info".spec_bytes(), metadata_json(info, capabilities)),
        r,
    ));
    r
}

/// Dispatches a `search` request to the source and answers it in the
/// buffer; `cancelled` is the host's cancel flag, read after logging.
pub fn search<S: Source, const N: usize>(
    source: &S,
    buffer: &mut ResultBuffer<N>,
    request: Option<Request<'_>>,
    cancelled: bool,
) -> (r: u32)
    ensures
        final(buffer)@.1.len() == N,
        dispatched(
            N as nat,
            old(buffer)@,
            final(buffer)@,
            request_text_of(request),
            "search",
            cancelled,
            r,
        ),
        accepted(request_text_of(request), "search", cancelled) ==> exists|q: SearchRequest, res: SourceResult|
            #[trigger] call_ensures(S::search, (source, q), res) && Some(q.request_text()) == request_text_of(
                request,
            ) && wrote_response(
                N as nat,
                old(buffer)@,
                final(buffer)@,
                result_payload("search".spec_bytes(), res).0,
                result_payload("search".spec_bytes(), res).1,
                r,
            ),
{
    let prepared: Option<SearchRequest> = prepare_operation(buffer, request, SearchRequest::OPERATION, cancelled);
    match prepared {
        None => buffer.last_ptr(),
        Some(req) => {
            let result = source.search(req);
            let ghost before = buffer@;
            let r = write_source_result(buffer, SearchRequest::OPERATION, result);
            assert(wrote_response(
                N as nat,
                old(buffer)@,
                final(buffer)@,
                result_payload("search".spec_bytes(), result).0,
                result_payload("search".spec_bytes(), result).1,
                r,
            ));
            r
        },
    }
}

/// Dispatches a `get_manga` request to the source and answers it in the
/// buffer; `cancelled` is the host's cancel flag, read after logging.
pub fn get_manga<S: Source, const N: usize>(
    source: &S,
    buffer: &mut ResultBuffer<N>,
    request: Option<Request<'_>>,
    cancelled: bool,
) -> (r: u32)
    ensures
        final(buffer)@.1.len() == N,
        dispatched(
            N as nat,
            old(buffer)@,
            final(buffer)@,
            request_text_of(request),
            "get_manga",
            cancelled,
            r,
        ),
        accepted(request_text_of(request), "get_manga", cancelled) ==> exists|q: MangaId, res: SourceResult|
            #[trigger] call_ensures(S::get_manga, (source, q), res) && Some(q.request_text()) == request_text_of(
                request,
            ) && wrote_response(
                N as nat,
                old(buffer)@,
                final(buffer)@,
                result_payload("get_manga".spec_bytes(), res).0,
                result_payload("get_manga".spec_bytes(), res).1,
                r,
            ),
{
    let prepared: Option<MangaId> = prepare_operation(buffer, request, MangaId::OPERATION, cancelled);
    match prepared {
        None => buffer.last_ptr(),
        Some(req) => {
            let result = source.get_manga(req);
            let ghost before = buffer@;
            let r = write_source_result(buffer, MangaId::OPERATION, result);
            assert(wrote_response(
                N as nat,
                old(buffer)@,
                final(buffer)@,
                result_payload("get_manga".spec_bytes(), result).0,
                result_payload("get_manga".spec_bytes(), result).1,
                r,
            ));
            r
        },
    }
}

/// Dispatches a `get_chapters` request to the source and answers it in the
/// buffer; `cancelled` is the host's cancel flag, read after logging.
pub fn get_chapters<S: Source, const N: usize>(
    source: &S,
    buffer: &mut ResultBuffer<N>,
    request: Option<Request<'_>>,
    cancelled: bool,
) -> (r: u32)
    ensures
        final(buffer)@.1.len() == N,
        dispatched(
            N as nat,
            old(buffer)@,
            final(buffer)@,
            request_text_of(request),
            "get_chapters",
            cancelled,
            r,
        ),
        accepted(request_text_of(request), "get_chapters", cancelled) ==> exists|q: ChapterListRequest, res: SourceResult|
            #[trigger] call_ensures(S::get_chapters, (source, q), res) && Some(q.request_text()) == request_text_of(
                request,
            ) && wrote_response(
                N as nat,
                old(buffer)@,
                final(buffer)@,
                result_payload("get_chapters".spec_bytes(), res).0,
                result_payload("get_chapters".spec_bytes(), res).1,
                r,
            ),
{
    let prepared: Option<ChapterListRequest> = prepare_operation(buffer, request, ChapterListRequest::OPERATION, cancelled);
    match prepared {
        None => buffer.last_ptr(),
        Some(req) => {
            let result = source.get_chapters(req);
            let ghost before = buffer@;
            let r = write_source_result(buffer, ChapterListRequest::OPERATION, result);
            assert(wrote_response(
                N as nat,
                old(buffer)@,
                final(buffer)@,
                result_payload("get_chapters".spec_bytes(), result).0,
                result_payload("get_chapters".spec_bytes(), result).1,
                r,
            ));
            r
        },
    }
}

/// Dispatches a `get_pages` request to the source and answers it in the
/// buffer; `cancelled` is the host's cancel flag, read after logging.
pub fn get_pages<S: Source, const N: usize>(
    source: &S,
    buffer: &mut ResultBuffer<N>,
    request: Option<Request<'_>>,
    cancelled: bool,
) -> (r: u32)
    ensures
        final(buffer)@.1.len() == N,
        dispatched(
            N as nat,
            old(buffer)@,
            final(buffer)@,
            request_text_of(request),
            "get_pages",
            cancelled,
            r,
        ),
        accepted(request_text_of(request), "get_pages", cancelled) ==> exists|q: ChapterId, res: SourceResult|
            #[trigger] call_ensures(S::get_pages, (source, q), res) && Some(q.request_text()) == request_text_of(
                request,
            ) && wrote_response(
                N as nat,
                old(buffer)@,
                final(buffer)@,
                result_payload("get_pages".spec_bytes(), res).0,
                result_payload("get_pages".spec_bytes(), res).1,
                r,
            ),
{
    let prepared: Option<ChapterId> = prepare_operation(buffer, request, ChapterId::OPERATION, cancelled);
    match prepared {
        None => buffer.last_ptr(),
        Some(req) => {
            let result = source.get_pages(req);
            let ghost before = buffer@;
            let r = write_source_result(buffer, ChapterId::OPERATION, result);
            assert(wrote_response(
                N as nat,
                old(buffer)@,
                final(buffer)@,
                result_payload("get_pages".spec_bytes(), result).0,
                result_payload("get_pages".spec_bytes(), result).1,
                r,
            ));
            r
        },
    }
}

/// Dispatches a `get_listings` request to the source and answers it in the
/// buffer; `cancelled` is the host's cancel flag, read after logging.
pub fn get_listings<S: Source, const N: usize>(
    source: &S,
    buffer: &mut ResultBuffer<N>,
    request: Option<Request<'_>>,
    cancelled: bool,
) -> (r: u32)
    ensures
        final(buffer)@.1.len() == N,
        dispatched(
            N as nat,
            old(buffer)@,
            final(buffer)@,
            request_text_of(request),
            "get_listings",
            cancelled,
            r,
        ),
        accepted(request_text_of(request), "get_listings", cancelled) ==> exists|q: ListingsRequest, res: SourceResult|
            #[trigger] call_ensures(S::get_listings, (source, q), res) && Some(q.request_text()) == request_text_of(
                request,
            ) && wrote_response(
                N as nat,
                old(buffer)@,
                final(buffer)@,
                result_payload("get_listings".spec_bytes(), res).0,
                result_payload("get_listings".spec_bytes(), res).1,
                r,
            ),
{
    let prepared: Option<ListingsRequest> = prepare_operation(buffer, request, ListingsRequest::OPERATION, cancelled);
    match prepared {
        None => buffer.last_ptr(),
        Some(req) => {
            let result = source.get_listings(req);
            let ghost before = buffer@;
            let r = write_source_result(buffer, ListingsRequest::OPERATION, result);
            assert(wrote_response(
                N as nat,
                old(buffer)@,
                final(buffer)@,
                result_payload("get_listings".spec_bytes(), result).0,
                result_payload("get_listings".spec_bytes(), result).1,
                r,
            ));
            r
        },
    }
}

/// Dispatches a `get_manga_list` request to the source and answers it in the
/// buffer; `cancelled` is the host's cancel flag, read after logging.
pub fn get_manga_list<S: Source, const N: usize>(
    source: &S,
    buffer: &mut ResultBuffer<N>,
    request: Option<Request<'_>>,
    cancelled: bool,
) -> (r: u32)
    ensures
        final(buffer)@.1.len() == N,
        dispatched(
            N as nat,
            old(buffer)@,
            final(buffer)@,
            request_text_of(request),
            "get_manga_list",
            cancelled,
            r,
        ),
        accepted(request_text_of(request), "get_manga_list", cancelled) ==> exists|q: MangaListRequest, res: SourceResult|
            #[trigger] call_ensures(S::get_manga_list, (source, q), res) && Some(q.request_text()) == request_text_of(
                request,
            ) && wrote_response(
                N as nat,
                old(buffer)@,
                final(buffer)@,
                result_payload("get_manga_list".spec_bytes(), res).0,
                result_payload("get_manga_list".spec_bytes(), res).1,
                r,
            ),
{
    let prepared: Option<MangaListRequest> = prepare_operation(buffer, request, MangaListRequest::OPERATION, cancelled);
    match prepared {
        None => buffer.last_ptr(),
        Some(req) => {
            let result = source.get_manga_list(req);
            let ghost before = buffer@;
            let r = write_source_result(buffer, MangaListRequest::OPERATION, result);
            assert(wrote_response(
                N as nat,
                old(buffer)@,
                final(buffer)@,
                result_payload("get_manga_list".spec_bytes(), result).0,
                result_payload("get_manga_list".spec_bytes(), result).1,
                r,
            ));
            r
        },
    }
}

/// Dispatches a `get_home` request to the source and answers it in the
/// buffer; `cancelled` is the host's cancel flag, read after logging.
pub fn get_home<S: Source, const N: usize>(
    source: &S,
    buffer: &mut ResultBuffer<N>,
    request: Option<Request<'_>>,
    cancelled: bool,
) -> (r: u32)
    ensures
        final(buffer)@.1.len() == N,
        dispatched(
            N as nat,
            old(buffer)@,
            final(buffer)@,
            request_text_of(request),
            "get_home",
            cancelled,
            r,
        ),
        accepted(request_text_of(request), "get_home", cancelled) ==> exists|q: HomeRequest, res: SourceResult|
            #[trigger] call_ensures(S::get_home, (source, q), res) && Some(q.request_text()) == request_text_of(
                request,
            ) && wrote_response(
                N as nat,
                old(buffer)@,
                final(buffer)@,
                result_payload("get_home".spec_bytes(), res).0,
                result_payload("get_home".spec_bytes(), res).1,
                r,
            ),
{
    let prepared: Option<HomeRequest> = prepare_operation(buffer, request, HomeRequest::OPERATION, cancelled);
    match prepared {
        None => buffer.last_ptr(),
        Some(req) => {
            let result = source.get_home(req);
            let ghost before = buffer@;
            let r = write_source_result(buffer, HomeRequest::OPERATION, result);
            assert(wrote_response(
                N as nat,
                old(buffer)@,
                final(buffer)@,
                result_payload("get_home".spec_bytes(), result).0,
                result_payload("get_home".spec_bytes(), result).1,
                r,
            ));
            r
        },
    }
}

/// Dispatches a `get_filters` request to the source and answers it in the
/// buffer; `cancelled` is the host's cancel flag, read after logging.
pub fn get_filters<S: Source, const N: usize>(
    source: &S,
    buffer: &mut ResultBuffer<N>,
    request: Option<Request<'_>>,
    cancelled: bool,
) -> (r: u32)
    ensures
        final(buffer)@.1.len() == N,
        dispatched(
            N as nat,
            old(buffer)@,
            final(buffer)@,
            request_text_of(request),
            "get_filters",
            cancelled,
            r,
        ),
        accepted(request_text_of(request), "get_filters", cancelled) ==> exists|q: FiltersRequest, res: SourceResult|
            #[trigger] call_ensures(S::get_filters, (source, q), res) && Some(q.request_text()) == request_text_of(
                request,
            ) && wrote_response(
                N as nat,
                old(buffer)@,
                final(buffer)@,
                result_payload("get_filters".spec_bytes(), res).0,
                result_payload("get_filters".spec_bytes(), res).1,
                r,
            ),
{
    let prepared: Option<FiltersRequest> = prepare_operation(buffer, request, FiltersRequest::OPERATION, cancelled);
    match prepared {
        None => buffer.last_ptr(),
        Some(req) => {
            let result = source.get_filters(req);
            let ghost before = buffer@;
            let r = write_source_result(buffer, FiltersRequest::OPERATION, result);
            assert(wrote_response(
                N as nat,
                old(buffer)@,
                final(buffer)@,
                result_payload("get_filters".spec_bytes(), result).0,
                result_payload("get_filters".spec_bytes(), result).1,
                r,
            ));
            r
        },
    }
}

/// Dispatches a `get_settings` request to the source and answers it in the
/// buffer; `cancelled` is the host's cancel flag, read after logging.
pub fn get_settings<S: Source, const N: usize>(
    source: &S,
    buffer: &mut ResultBuffer<N>,
    request: Option<Request<'_>>,
    cancelled: bool,
) -> (r: u32)
    ensures
        final(buffer)@.1.len() == N,
        dispatched(
            N as nat,
            old(buffer)@,
            final(buffer)@,
            request_text_of(request),
            "get_settings",
            cancelled,
            r,
        ),
        accepted(request_text_of(request), "get_settings", cancelled) ==> exists|q: SettingsRequest, res: SourceResult|
            #[trigger] call_ensures(S::get_settings, (source, q), res) && Some(q.request_text()) == request_text_of(
                request,
            ) && wrote_response(
                N as nat,
                old(buffer)@,
                final(buffer)@,
                result_payload("get_settings".spec_bytes(), res).0,
                result_payload("get_settings".spec_bytes(), res).1,
                r,
            ),
{
    let prepared: Option<SettingsRequest> = prepare_operation(buffer, request, SettingsRequest::OPERATION, cancelled);
    match prepared {
        None => buffer.last_ptr(),
        Some(req) => {
            let result = source.get_settings(req);
            let ghost before = buffer@;
            let r = write_source_result(buffer, SettingsRequest::OPERATION, result);
            assert(wrote_response(
                N as nat,
                old(buffer)@,
                final(buffer)@,
                result_payload("get_settings".spec_bytes(), result).0,
                result_payload("get_settings".spec_bytes(), result).1,
                r,
            ));
            r
        },
    }
}

/// Dispatches a `get_image_request` request to the source and answers it in the
/// buffer; `cancelled` is the host's cancel flag, read after logging.
pub fn get_image_request<S: Source, const N: usize>(
    source: &S,
    buffer: &mut ResultBuffer<N>,
    request: Option<Request<'_>>,
    cancelled: bool,
) -> (r: u32)
    ensures
        final(buffer)@.1.len() == N,
        dispatched(
            N as nat,
            old(buffer)@,
            final(buffer)@,
            request_text_of(request),
            "get_image_request",
            cancelled,
            r,
        ),
        accepted(request_text_of(request), "get_image_request", cancelled) ==> exists|q: ImageRequestInput, res: SourceResult|
            #[trigger] call_ensures(S::get_image_request, (source, q), res) && Some(q.request_text()) == request_text_of(
                request,
            ) && wrote_response(
                N as nat,
                old(buffer)@,
                final(buffer)@,
                result_payload("get_image_request".spec_bytes(), res).0,
                result_payload("get_image_request".spec_bytes(), res).1,
                r,
            ),
{
    let prepared: Option<ImageRequestInput> = prepare_operation(buffer, request, ImageRequestInput::OPERATION, cancelled);
    match prepared {
        None => buffer.last_ptr(),
        Some(req) => {
            let result = source.get_image_request(req);
            let ghost before = buffer@;
            let r = write_source_result(buffer, ImageRequestInput::OPERATION, result);
            assert(wrote_response(
                N as nat,
                old(buffer)@,
                final(buffer)@,
                result_payload("get_image_request".spec_bytes(), result).0,
                result_payload("get_image_request".spec_bytes(), result).1,
                r,
            ));
            r
        },
    }
}

} // verus!
