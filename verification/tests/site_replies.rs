use koma_source_sdk::fetch::retry_transport;
use koma_source_sdk::sources::dm5::chapter_extra_of;
use koma_source_sdk::sources::happymh_html::{attr_value, detail_payload, index_url, scan_image, strip_tags_into};
use koma_source_sdk::sources::happymh_items::{chapter_fields, image_request_payload, page_image, write_chapter};
use koma_source_sdk::sources::happymh_lists::{list_payload, ListError};
use koma_source_sdk::sources::jiuermanhua_pages::{pages_payload, PagesError};
use koma_source_sdk::{decode_json_body_into, FetchError};

fn text(out: &[u8], n: usize) -> String {
    String::from_utf8(out[..n].to_vec()).unwrap()
}

#[test]
fn jiuermanhua_pages_join_host_path_and_image() {
    let html = br#"<script>var chapterImages = ["a.jpg","b.jpg"];var chapterPath = "p/1/";</script>"#;
    let mut out = vec![0u8; 1024];
    let n = pages_payload(b"/c/1.html", html, b"img.example.com", b"p/1/", &mut out).unwrap();
    assert_eq!(
        text(&out, n),
        r#"{"chapterId":"/c/1.html","pages":[{"id":"page:0","index":0,"image":{"kind":"url","url":"img.example.com/p/1/a.jpg"}},{"id":"page:1","index":1,"image":{"kind":"url","url":"img.example.com/p/1/b.jpg"}}]}"#
    );
}

#[test]
fn jiuermanhua_pages_close_a_shortened_list() {
    let html = br#"<script>var chapterImages = ["a.jpg","b.jpg"];var chapterPath = "p/1/";</script>"#;
    let mut out = vec![0u8; 122];
    let n = pages_payload(b"/c/1.html", html, b"img.example.com", b"p/1/", &mut out).unwrap();
    assert_eq!(
        text(&out, n),
        r#"{"chapterId":"/c/1.html","pages":[{"id":"page:0","index":0,"image":{"kind":"url","url":"img.example.com/p/1/a.jpg"}},]}"#
    );
}

#[test]
fn jiuermanhua_pages_errors() {
    let mut out = vec![0u8; 1024];
    assert_eq!(pages_payload(b"x", b"no images here", b"h", b"p", &mut out), Err(PagesError::NoImages));
    assert_eq!(pages_payload(b"x", b"chapterImages = null", b"h", b"p", &mut out), Err(PagesError::NoArray));
    let mut small = vec![0u8; 8];
    assert_eq!(pages_payload(b"x", br#"chapterImages = ["a"]"#, b"h", b"p", &mut small), Err(PagesError::Overflow));
}

const CARD: &str = r#"{"id":"manga:abc","title":"T","cover":{"kind":"url","url":"c.jpg"},"authors":[],"status":"unknown","contentRating":"safe","description":"","sourceTags":["happymh"]}"#;

#[test]
fn happymh_list_skips_objects_without_code() {
    let json = br#"{"data":{"items":[{"manga_code":"abc","name":"T","cover":"c.jpg"},{"x":1}],"isEnd":false}}"#;
    let mut out = vec![0u8; 4096];
    let n = list_payload(json, 1, b"happymh", false, &mut out).unwrap();
    assert_eq!(text(&out, n), format!(r#"{{"items":[{}],"page":{{"nextCursor":"2","hasMore":true}}}}"#, CARD));
    let n = list_payload(json, 1, b"happymh", true, &mut out).unwrap();
    assert_eq!(text(&out, n), format!(r#"{{"items":[{}],"page":{{"nextCursor":null,"hasMore":false}}}}"#, CARD));
}

#[test]
fn happymh_list_ends_where_the_site_says() {
    let json = br#"{"data":{"items":[{"code":"abc","name":"T","cover":"c.jpg"}],"isEnd":true}}"#;
    let mut out = vec![0u8; 4096];
    let n = list_payload(json, 3, b"happymh", false, &mut out).unwrap();
    assert_eq!(text(&out, n), format!(r#"{{"items":[{}],"page":{{"nextCursor":null,"hasMore":false}}}}"#, CARD));
}

#[test]
fn happymh_list_errors() {
    let mut out = vec![0u8; 4096];
    assert_eq!(list_payload(b"<html><body>check</body></html>", 1, b"t", false, &mut out), Err(ListError::VerificationPage));
    assert_eq!(list_payload(b"{}", 1, b"t", false, &mut out), Err(ListError::MissingItems));
    let mut small = vec![0u8; 4];
    assert_eq!(list_payload(br#"{"items":[]}"#, 1, b"t", false, &mut small), Err(ListError::Overflow));
}

#[test]
fn happymh_index_url_sets_only_given_filters() {
    let mut out = vec![0u8; 512];
    let n = index_url(2, b"views", b"", b"japan", b"", b"-1", &mut out).unwrap();
    assert_eq!(text(&out, n), "https://m.happymh.com/apis/c/index?pn=2&series_status=-1&order=views&area=japan");
    let mut small = vec![0u8; 10];
    assert_eq!(index_url(2, b"views", b"", b"", b"", b"-1", &mut small), None);
}

#[test]
fn happymh_attributes_and_text() {
    assert_eq!(attr_value(br#"<img class="a" src = 'x.png'>"#, b"src"), Some(&b"x.png"[..]));
    assert_eq!(attr_value(br#"<img src=x.png>"#, b"src"), None);
    assert_eq!(attr_value(br#"<img alt="a">"#, b"src"), None);
    let mut out = vec![0u8; 64];
    let n = strip_tags_into(b"<b>Hi</b> &amp; you", &mut out);
    assert_eq!(text(&out, n), "Hi   you");
    let mut small = vec![0u8; 3];
    let n = strip_tags_into(b"<b>Hello</b>", &mut small);
    assert_eq!(text(&small, n), "Hel");
}

#[test]
fn happymh_scan_image_drops_resize_query_when_too_large() {
    assert_eq!(scan_image(br#"{"url":"a.jpg?q=50"}"#, true), Some(&b"a.jpg"[..]));
    assert_eq!(scan_image(br#"{"url":"a.jpg?q=50"}"#, false), Some(&b"a.jpg?q=50"[..]));
    assert_eq!(scan_image(br#"{"url":""}"#, false), None);
    assert_eq!(scan_image(br#"{"n":1}"#, false), None);
}

#[test]
fn happymh_detail_reads_the_page() {
    let html = br#"<h2 class="mg-title"> Name </h2><mip-img class="mg-cover" src="c.jpg"></mip-img><p class="mg-sub-title">Au</p><mip-showmore class="manga-introduction">Desc</mip-showmore><a href="/latest/x">Tag</a><a href="/other">No</a>"#;
    let mut scratch = vec![0u8; 256];
    let mut out = vec![0u8; 4096];
    let n = detail_payload(html, b"abc", b"https://m.happymh.com/manga/abc", &mut scratch, &mut out).unwrap();
    assert_eq!(
        text(&out, n),
        r#"{"manga":{"id":"manga:abc","title":"Name","alternateTitles":[],"description":"Desc","cover":{"kind":"url","url":"c.jpg"},"authors":["Au"],"artists":[],"status":"unknown","contentRating":"safe","language":"zh","tags":["Tag"],"links":[{"kind":"source","url":"https://m.happymh.com/manga/abc"}]}}"#
    );
    let n = detail_payload(b"<html></html>", b"abc", b"u", &mut scratch, &mut out).unwrap();
    assert_eq!(
        text(&out, n),
        r#"{"manga":{"id":"manga:abc","title":"abc","alternateTitles":[],"description":"","cover":{"kind":"url","url":""},"authors":[],"artists":[],"status":"unknown","contentRating":"safe","language":"zh","tags":[],"links":[{"kind":"source","url":"u"}]}}"#
    );
}

#[test]
fn happymh_chapter_and_image_request() {
    let mut out = vec![0u8; 1024];
    let mut c = 0usize;
    assert!(write_chapter(&mut out, &mut c, true, b"abc", 2, b"77", b"Ch 1", b"1"));
    assert_eq!(
        text(&out, c),
        r#"{"id":"chapter:abc:2:77","mangaId":"manga:abc","title":"Ch 1","chapterNumber":"1","volumeNumber":null,"language":"zh","publishedAt":null,"updatedAt":null,"pageCount":null}"#
    );
    let n = image_request_payload(b"http://x/y.jpg", &mut out).unwrap();
    assert_eq!(text(&out, n), r#"{"url":"http://x/y.jpg","headers":{"Referer":"https://m.happymh.com/"}}"#);
}

#[test]
fn dm5_chapter_id_page_count_part() {
    assert_eq!(chapter_extra_of(b"chapter:m1:c2:15"), Some(&b"15"[..]));
    assert_eq!(chapter_extra_of(b"chapter:m1:c2"), None);
    assert_eq!(chapter_extra_of(b"manga:m1"), None);
}

#[test]
fn transport_is_tried_three_times() {
    assert!(retry_transport(0));
    assert!(retry_transport(1));
    assert!(!retry_transport(2));
}

#[test]
fn status_error_leaves_destination_untouched() {
    let mut dst = vec![7u8; 16];
    assert_eq!(decode_json_body_into(br#"{"ok":false,"statusCode":503}"#, &mut dst), Err(FetchError::ServerError));
    assert_eq!(dst, vec![7u8; 16]);
    assert_eq!(decode_json_body_into(br#"{"ok":false,"statusCode":404}"#, &mut dst), Err(FetchError::NotFound));
    assert_eq!(dst, vec![7u8; 16]);
}

#[test]
fn happymh_page_images() {
    assert_eq!(page_image(br#"{"n":1,"url":"a.jpg"}"#), None);
    assert_eq!(page_image(br#"{"n":2,"url":"a.jpg?q=50","width":20000}"#), Some(&b"a.jpg"[..]));
    assert_eq!(page_image(br#"{"n":2,"url":"a.jpg?q=50","width":800,"height":1200}"#), Some(&b"a.jpg?q=50"[..]));
    assert_eq!(page_image(br#"{"n":2}"#), None);
}

#[test]
fn happymh_chapter_fields_fall_back() {
    assert_eq!(
        chapter_fields(br#"{"id":77,"chapterName":"One","order":3}"#),
        Some((&b"77"[..], &b"One"[..], &b"3"[..]))
    );
    assert_eq!(chapter_fields(br#"{"id":77}"#), Some((&b"77"[..], &b"Chapter"[..], &b"77"[..])));
    assert_eq!(chapter_fields(br#"{"chapterName":"One"}"#), None);
}

#[test]
fn utf8_encoding_agrees_with_char_encoding() {
    for c in ['A', 'é', '中', '😀', '\u{7FF}', '\u{FFFF}', '\u{10FFFF}'] {
        let mut buf = [0u8; 4];
        let n = koma_source_sdk::json_utils::encode_utf8(c as u32, &mut buf);
        let mut expected = [0u8; 4];
        assert_eq!(&buf[..n], c.encode_utf8(&mut expected).as_bytes());
    }
}

#[test]
fn base64_decodes_standard_encodings() {
    for (text, bytes) in [(&b"TWFu"[..], &b"Man"[..]), (&b"TWE="[..], &b"Ma"[..]), (&b"TQ=="[..], &b"M"[..]), (&b"/+8="[..], &[0xFF, 0xEF][..])] {
        let mut out = vec![0u8; bytes.len()];
        let n = koma_source_sdk::sources::hanman18::base64_decode(text, &mut out).unwrap();
        assert_eq!(&out[..n], bytes);
    }
}

#[test]
fn dm5_reply_decoder_agrees_with_shared_decoder() {
    let replies: [&[u8]; 4] = [
        br#"{"ok":true,"status":200,"bodyText":"a\u4e2db\n\"q\""}"#,
        br#"{"ok":false,"statusCode":503}"#,
        br#"{"ok":false,"statusCode":404}"#,
        br#"{"ok":true,"bodyText":"unterminated"#,
    ];
    for resp in replies {
        let mut a = vec![0u8; 64];
        let mut b = vec![0u8; 64];
        let ra = koma_source_sdk::sources::dm5::decode_json_body(resp, &mut a);
        let rb = decode_json_body_into(resp, &mut b);
        assert_eq!(ra, rb);
        if let Ok(n) = ra {
            assert_eq!(&a[..n], &b[..n]);
        }
    }
}
