use koma_source_sdk::sources::dongmanmanhua::{extract_number_from_end, path_from_url};
use koma_source_sdk::sources::example_demo::find_subslice_from;
use koma_source_sdk::sources::hanman18::base64_decode;

fn decode(input: &[u8], cap: usize) -> Option<Vec<u8>> {
    let mut out = vec![0u8; cap];
    base64_decode(input, &mut out).map(|n| out[..n].to_vec())
}

#[test]
fn base64_decodes_padded_text() {
    assert_eq!(decode(b"aGVsbG8=", 16), Some(b"hello".to_vec()));
    assert_eq!(decode(b"aGVsbG8gd29ybGQ=", 16), Some(b"hello world".to_vec()));
    assert_eq!(decode(b"YQ==", 4), Some(b"a".to_vec()));
    assert_eq!(decode(b"", 4), Some(Vec::new()));
}

#[test]
fn base64_skips_whitespace() {
    assert_eq!(decode(b"aGVs\nbG8=", 16), Some(b"hello".to_vec()));
    assert_eq!(decode(b" Pz8/ ", 16), Some(b"???".to_vec()));
}

#[test]
fn base64_rejects_bad_bytes_and_small_buffers() {
    assert_eq!(decode(b"aGV*sbG8=", 16), None);
    assert_eq!(decode(b"aGVsbG8=", 4), None);
    assert_eq!(decode(b"aGVsbG8=", 5), Some(b"hello".to_vec()));
}

#[test]
fn url_paths_of_full_and_relative_urls() {
    assert_eq!(path_from_url(b"https://www.dongmanmanhua.cn/abc/list?x=1"), Some(&b"/abc/list?x=1"[..]));
    assert_eq!(path_from_url(b"//www.dongmanmanhua.cn/p"), Some(&b"/p"[..]));
    assert_eq!(path_from_url(b"rel/path"), Some(&b"rel/path"[..]));
    assert_eq!(path_from_url(b"https://host"), None);
    assert_eq!(path_from_url(b"//host"), None);
}

#[test]
fn number_at_the_end_of_a_title() {
    assert_eq!(extract_number_from_end("第12话 (3)".as_bytes()), Some(&b"3"[..]));
    assert_eq!(extract_number_from_end(b"ep 45"), Some(&b"45"[..]));
    assert_eq!(extract_number_from_end(b"abc"), None);
    assert_eq!(extract_number_from_end(b""), None);
}

#[test]
fn subslice_search_from_the_demo_source() {
    assert_eq!(find_subslice_from(b"hello", b"ll"), Some(2));
    assert_eq!(find_subslice_from(b"abc", b""), Some(0));
    assert_eq!(find_subslice_from(b"abc", b"d"), None);
    assert_eq!(find_subslice_from(b"ab", b"abc"), None);
}

use koma_source_sdk::sources::dm5::reply_status_fits;
use koma_source_sdk::sources::example_demo::{
    demo_chapters_payload, demo_manga_payload, demo_manga_url, demo_number, demo_pages_payload,
    demo_search_payload,
};

#[test]
fn demo_chapters_are_three_numbered_chapters() {
    let mut payload = [0u8; 1024];
    let n = demo_chapters_payload(b"demo:1", &mut payload).expect("fits");
    let expected = [
        r#"{"items":[{"id":"ch:demo:1:1","mangaId":"demo:1","title":"Chapter 1","chapterNumber":"1","language":"en","pageCount":1},"#,
        r#"{"id":"ch:demo:1:2","mangaId":"demo:1","title":"Chapter 2","chapterNumber":"2","language":"en","pageCount":1},"#,
        r#"{"id":"ch:demo:1:3","mangaId":"demo:1","title":"Chapter 3","chapterNumber":"3","language":"en","pageCount":1}],"page":{"hasMore":false}}"#,
    ]
    .concat();
    assert_eq!(&payload[..n], expected.as_bytes());
    let mut small = [0u8; 64];
    assert_eq!(demo_chapters_payload(b"demo:1", &mut small), None);
}

#[test]
fn demo_manga_from_a_post() {
    assert_eq!(demo_number(b"demo:7"), b"7");
    assert_eq!(demo_number(b"7"), b"7");
    let mut url = [0u8; 64];
    let n = demo_manga_url(b"7", &mut url).expect("fits");
    assert_eq!(&url[..n], b"https://jsonplaceholder.typicode.com/posts/7");
    let body: &[u8] = br#"{"userId":1,"id":7,"title":"magnam","body":"line\nnext"}"#;
    let mut payload = [0u8; 512];
    let n = demo_manga_payload(body, b"7", &mut payload).expect("fits");
    let expected: &[u8] = br#"{"manga":{"id":"demo:7","title":"magnam","description":"line\\nnext","cover":{"kind":"none"},"authors":["Demo Author"],"status":"unknown","contentRating":"safe","tags":["demo"],"links":[]}}"#;
    assert_eq!(&payload[..n], expected);
}

#[test]
fn demo_pages_are_one_placeholder() {
    let mut payload = [0u8; 256];
    let n = demo_pages_payload(&mut payload).expect("fits");
    assert_eq!(
        &payload[..n],
        br#"{"pages":[{"id":"page:0","index":0,"image":{"kind":"placeholder","label":"demo-page","width":800,"height":1200}}]}"#
    );
}

#[test]
fn demo_search_lists_the_posts() {
    let body: &[u8] = br#"[{"id":"1","title":"a"}, {"title":"b"}, 7, {"id":"3"}]"#;
    let mut payload = [0u8; 1024];
    let n = demo_search_payload(body, &mut payload).expect("fits");
    let tail = r#"","cover":{"kind":"none"},"authors":[],"status":"unknown","contentRating":"safe","sourceTags":["demo"]}"#;
    let expected = format!(
        "{{\"items\":[{{\"id\":\"demo:1\",\"title\":\"a{tail},{{\"id\":\"demo:0\",\"title\":\"b{tail},{{\"id\":\"demo:3\",\"title\":\"Untitled{tail}],\"page\":{{\"hasMore\":false}}}}"
    );
    assert_eq!(&payload[..n], expected.as_bytes());
}

#[test]
fn demo_search_keeps_the_footer_when_items_overflow() {
    let body: &[u8] = br#"[{"id":"1","title":"a"},{"id":"2","title":"b"}]"#;
    let mut payload = [0u8; 200];
    let n = demo_search_payload(body, &mut payload).expect("footer fits");
    let tail = r#"","cover":{"kind":"none"},"authors":[],"status":"unknown","contentRating":"safe","sourceTags":["demo"]}"#;
    let expected = format!(
        "{{\"items\":[{{\"id\":\"demo:1\",\"title\":\"a{tail},{{\"id\":\"demo:2\",\"title\":\"b],\"page\":{{\"hasMore\":false}}}}"
    );
    assert_eq!(&payload[..n], expected.as_bytes());
    let mut tiny = [0u8; 150];
    assert_eq!(demo_search_payload(body, &mut tiny), None);
}

#[test]
fn reply_status_code_range() {
    assert!(reply_status_fits(br#"{"ok":false,"statusCode":404}"#));
    assert!(reply_status_fits(br#"{"ok":true}"#));
    assert!(!reply_status_fits(br#"{"statusCode":70000}"#));
}

use koma_source_sdk::sources::bh3;

#[test]
fn bh3_detail_uses_the_site_for_relative_covers() {
    let mut payload = [0u8; 1024];
    let n = bh3::detail_payload(b"12", Some(b"T"), None, Some(b"/img/c.jpg"), &mut payload).expect("fits");
    let expected: &[u8] = br#"{"manga":{"id":"bh3:12","title":"T","alternateTitles":[],"description":"","cover":{"kind":"url","url":"https://comic.bh3.com/img/c.jpg"},"authors":[],"artists":[],"status":"unknown","contentRating":"safe","language":"zh","tags":["bh3"],"links":[{"kind":"source","url":"https://comic.bh3.com/book/12"}]}}"#;
    assert_eq!(&payload[..n], expected);
    let n = bh3::detail_payload(b"12", None, Some(b"d"), None, &mut payload).expect("fits");
    assert!(payload[..n].starts_with(br#"{"manga":{"id":"bh3:12","title":"12","alternateTitles":[],"description":"d","cover":{"kind":"url","url":""},"#));
    let mut small = [0u8; 20];
    assert_eq!(bh3::detail_payload(b"12", None, None, None, &mut small), None);
}

#[test]
fn bh3_pages_and_list_items() {
    let mut payload = [0u8; 1024];
    let mut c = 0usize;
    assert!(bh3::write_pages_head(&mut payload, &mut c, b"1", b"2"));
    assert!(bh3::write_page(&mut payload, &mut c, b"1", b"2", 0, b"https://x/a.jpg"));
    assert!(bh3::write_page(&mut payload, &mut c, b"1", b"2", 1, b"/b.jpg"));
    let expected: &[u8] = br#"{"chapterId":"bh3ch:1:2","pages":[{"id":"bh3page:1:2:0","index":0,"image":{"kind":"url","url":"https://x/a.jpg"}},{"id":"bh3page:1:2:1","index":1,"image":{"kind":"url","url":"https://comic.bh3.com/b.jpg"}}"#;
    assert_eq!(&payload[..c], expected);
    let mut c = 0usize;
    assert!(bh3::write_list_item(&mut payload, &mut c, true, b"7", None, None));
    assert!(bh3::write_list_item(&mut payload, &mut c, false, b"8", Some(b"B"), Some(b"//i/x.png")));
    let expected: &[u8] = br#"{"id":"bh3:7","title":"7","cover":{"kind":"url","url":""},"authors":[],"status":"unknown","contentRating":"safe","sourceTags":["bh3"]},{"id":"bh3:8","title":"B","cover":{"kind":"url","url":"//i/x.png"},"authors":[],"status":"unknown","contentRating":"safe","sourceTags":["bh3"]}"#;
    assert_eq!(&payload[..c], expected);
}

use koma_source_sdk::sources::dm5::{search_route, SearchRoute};
use koma_source_sdk::source::init_status;

#[test]
fn dm5_search_routes_by_query() {
    assert!(matches!(search_route(b""), SearchRoute::Listings));
    match search_route(b"id:manhua-abc") {
        SearchRoute::Manga(id) => assert_eq!(id, b"manhua-abc"),
        _ => panic!("manga route expected"),
    }
    assert!(matches!(search_route(b"one piece"), SearchRoute::Keyword));
    assert!(matches!(search_route(b"id"), SearchRoute::Keyword));
}

#[test]
fn init_status_follows_cancel_and_manifest() {
    assert_eq!(init_status(10, false), 0);
    assert_eq!(init_status(0, false), -1);
    assert_eq!(init_status(10, true), -2);
}
