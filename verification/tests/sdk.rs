use koma_source_sdk::request::Request;
use koma_source_sdk::source::{MangaListRequest, OperationRequest, SearchRequest, SourceCapabilities};

#[test]
fn full_v02_fixture_capabilities_advertise_current_operation_surface() {
    let capabilities = SourceCapabilities::FULL_V02_FIXTURE();

    assert!(capabilities.search);
    assert!(capabilities.manga_detail);
    assert!(capabilities.chapters);
    assert!(capabilities.pages);
    assert!(capabilities.listings);
    assert!(capabilities.manga_list);
    assert!(capabilities.home);
    assert!(capabilities.filters);
    assert!(capabilities.settings);
    assert!(capabilities.image_request);
}

fn request_from(bytes: &[u8]) -> Request<'_> {
    Request::from_bytes_for_test(bytes).expect("non-empty request")
}

#[test]
fn contains_json_number_matches_compact_pagination_limit() {
    let bytes: &[u8] =
        br#"{"operation":"get_manga_list","listingId":"all","cursor":"","limit":20}"#;
    let request = request_from(bytes);

    assert!(request.contains_json_number(b"limit", 20));
    assert!(!request.contains_json_number(b"limit", 21));
    assert!(!request.contains_json_number(b"offset", 20));
}

#[test]
fn contains_json_number_rejects_digit_prefix_collision() {
    let bytes: &[u8] = br#"{"limit":200}"#;
    let request = request_from(bytes);

    assert!(request.contains_json_number(b"limit", 200));
    assert!(!request.contains_json_number(b"limit", 20));
}

#[test]
fn manga_list_and_search_limit_is_wrappers_match_compact_pagination() {
    let manga_list_bytes: &[u8] =
        br#"{"operation":"get_manga_list","listingId":"all","cursor":"","limit":20}"#;
    let manga_list = MangaListRequest::from_request(request_from(manga_list_bytes));
    assert!(manga_list.limit_is(20));
    assert!(!manga_list.limit_is(50));

    let search_bytes: &[u8] = br#"{"operation":"search","query":"foo","limit":50}"#;
    let search = SearchRequest::from_request(request_from(search_bytes));
    assert!(search.limit_is(50));
    assert!(!search.limit_is(20));
}
