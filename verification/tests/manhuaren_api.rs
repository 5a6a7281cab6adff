use koma_source_sdk::sources::manhuaren::{hex_encode, key_order, md5, Param};
use koma_source_sdk::sources::manhuaren_json::{
    extract_json_number, extract_json_string, first_string_in_array, json_value_start,
    parse_usize, status_from_i32, write_author_array, write_chapters_from_array,
    write_manga_item, write_tags, ObjectArrayIter,
};

fn md5_hex(input: &[u8]) -> Vec<u8> {
    let mut digest = [0u8; 16];
    md5(input, &mut digest);
    let mut hex = [0u8; 32];
    hex_encode(&digest, &mut hex);
    hex.to_vec()
}

#[test]
fn md5_of_known_inputs() {
    assert_eq!(md5_hex(b""), b"d41d8cd98f00b204e9800998ecf8427e".to_vec());
    assert_eq!(md5_hex(b"abc"), b"900150983cd24fb0d6963f7d28e17f72".to_vec());
    assert_eq!(
        md5_hex(b"The quick brown fox jumps over the lazy dog"),
        b"9e107d9d372bb6826bd81d3542a419d6".to_vec()
    );
}

#[test]
fn md5_of_input_longer_than_a_block() {
    let input = [b'a'; 100];
    assert_eq!(md5_hex(&input), b"36a92cc94a9e0fa21f625f8bfb007adf".to_vec());
}

#[test]
fn params_are_ordered_by_key() {
    let params = [
        Param { key: b"gsm", value: b"md5" },
        Param { key: b"gak", value: b"x" },
        Param { key: b"gsn", value: b"y" },
        Param { key: b"ga", value: b"z" },
    ];
    assert_eq!(key_order(&params), vec![3, 1, 0, 2]);
}

#[test]
fn value_start_allows_whitespace_and_skips_keys_without_colon() {
    assert_eq!(json_value_start(br#"{"k" : 5}"#, b"k"), Some(7));
    let data: &[u8] = br#"{"x":"k","k":1}"#;
    assert_eq!(json_value_start(data, b"k"), Some(13));
    assert_eq!(extract_json_number(data, b"k"), Some(&b"1"[..]));
    assert_eq!(extract_json_string(br#"{"mangaName" : "One"}"#, b"mangaName"), Some(&b"One"[..]));
    assert_eq!(json_value_start(b"{}", b"k"), None);
}

#[test]
fn lenient_number_and_status_words() {
    assert_eq!(parse_usize(b"1a2"), 12);
    assert_eq!(parse_usize(b""), 0);
    assert_eq!(status_from_i32(1), b"completed");
    assert_eq!(status_from_i32(0), b"ongoing");
    assert_eq!(status_from_i32(5), b"unknown");
}

#[test]
fn tags_are_split_on_separators() {
    let mut buf = [0u8; 64];
    let mut c = 0usize;
    assert!(write_tags(&mut buf, &mut c, b" a,b/c|d "));
    assert_eq!(&buf[..c], br#""a","b","c","d""#);
    let mut c2 = 0usize;
    assert!(write_tags(&mut buf, &mut c2, b" ,/"));
    assert_eq!(c2, 0);
}

#[test]
fn author_array_strings_are_written_quoted() {
    let mut buf = [0u8; 64];
    let mut c = 0usize;
    assert!(write_author_array(&mut buf, &mut c, br#"{"authors":[ "X", "Y\"Z"]}"#, b"authors"));
    assert_eq!(&buf[..c], br#""X","Y\"Z""#);
    let mut c2 = 0usize;
    assert!(write_author_array(&mut buf, &mut c2, br#"{"other":1}"#, b"authors"));
    assert_eq!(c2, 0);
}

#[test]
fn first_string_of_an_array() {
    assert_eq!(first_string_in_array(br#"{"imgs":["u1","u2"]}"#, b"imgs"), Some(&b"u1"[..]));
    assert_eq!(first_string_in_array(br#"{"imgs":[]}"#, b"imgs"), None);
    assert_eq!(first_string_in_array(br#"{"imgs":"u1"}"#, b"imgs"), None);
}

#[test]
fn object_iterator_over_array_under_key() {
    let data: &[u8] = br#"{"list":[{"a":1}, {"b":2}]}"#;
    let mut it = ObjectArrayIter::new(data, b"list").expect("array");
    assert_eq!(it.next_object(), Some(&br#"{"a":1}"#[..]));
    assert_eq!(it.next_object(), Some(&br#"{"b":2}"#[..]));
    assert_eq!(it.next_object(), None);
}

#[test]
fn manga_item_from_api_object() {
    let obj: &[u8] = br#"{"mangaId":12,"mangaName":"T","mangaCoverimageUrl":"http:\/\/c","mangaAuthor":"A","mangaTheme":"x y","mangaIsOver":1}"#;
    let mut buf = [0u8; 256];
    let mut c = 0usize;
    assert!(write_manga_item(&mut buf, &mut c, obj));
    let expected: &[u8] = br#"{"id":"mhr:12","title":"T","cover":{"kind":"url","url":"http://c"},"authors":["A"],"status":"completed","contentRating":"safe","sourceTags":["manhuaren","x","y"]}"#;
    assert_eq!(&buf[..c], expected);
}

#[test]
fn manga_item_defaults_when_fields_are_missing() {
    let mut buf = [0u8; 256];
    let mut c = 0usize;
    assert!(write_manga_item(&mut buf, &mut c, b"{}"));
    let expected: &[u8] = br#"{"id":"mhr:0","title":"Unknown","cover":{"kind":"none"},"authors":[],"status":"unknown","contentRating":"safe","sourceTags":["manhuaren"]}"#;
    assert_eq!(&buf[..c], expected);
}

#[test]
fn chapters_are_written_with_commas_and_counted() {
    let data = r#"{"list":[{"sectionId":5,"sectionName":"第1话","sectionTitle":"","sectionSort":1,"releaseTime":"2020-01-01","isMustPay":0},{"sectionId":6,"sectionName":"B","sectionTitle":"t","sectionSort":2,"releaseTime":"","isMustPay":1}]}"#;
    let mut buf = [0u8; 512];
    let mut c = 0usize;
    let mut written = 0usize;
    assert!(write_chapters_from_array(&mut buf, &mut c, data.as_bytes(), b"list", false, &mut written, b"9"));
    assert_eq!(written, 2);
    let expected = r#"{"id":"5","mangaId":"mhr:9","title":"第1话","chapterNumber":"1","volumeNumber":null,"language":"zh","publishedAt":"2020-01-01","updatedAt":null,"pageCount":null},{"id":"6","mangaId":"mhr:9","title":"(锁) B: t","chapterNumber":"2","volumeNumber":null,"language":"zh","publishedAt":null,"updatedAt":null,"pageCount":null}"#;
    assert_eq!(&buf[..c], expected.as_bytes());
}

#[test]
fn extra_chapters_are_marked_and_follow_with_a_comma() {
    let data: &[u8] = br#"{"extra":[{"sectionId":7,"sectionName":"S","sectionSort":3}]}"#;
    let mut buf = [0u8; 512];
    let mut c = 0usize;
    let mut written = 1usize;
    assert!(write_chapters_from_array(&mut buf, &mut c, data, b"extra", true, &mut written, b"9"));
    assert_eq!(written, 2);
    let expected = r#",{"id":"7","mangaId":"mhr:9","title":"[番外] S","chapterNumber":"3","volumeNumber":null,"language":"zh","publishedAt":null,"updatedAt":null,"pageCount":null}"#;
    assert_eq!(&buf[..c], expected.as_bytes());
}

#[test]
fn chapters_stop_when_the_payload_is_full() {
    let data: &[u8] = br#"{"list":[{"sectionId":5},{"sectionId":6}]}"#;
    let mut buf = [0u8; 40];
    let mut c = 0usize;
    let mut written = 0usize;
    assert!(!write_chapters_from_array(&mut buf, &mut c, data, b"list", false, &mut written, b"9"));
    assert_eq!(written, 0);
}

use koma_source_sdk::fetch::FetchError;
use koma_source_sdk::pieces::Outcome;
use koma_source_sdk::sources::manhuaren_json::{
    build_authed_get_request, chapters_payload, decode_api_reply, decode_ok_reply, detail_payload,
    image_request_payload, list_payload, pages_payload, read_anony_credentials, ReplyBody,
};

#[test]
fn detail_payload_from_api_reply() {
    let api: &[u8] = br#"{"response":{"mangaName":"N","mangaIntro":"I","mangaCoverimageUrl":"http://mhfm5.tel.cdndm5.com/tag/category/nopic.jpg","mangaPicimageUrl":"p","mangaAuthors":["A","B"],"mangaTheme":"x","mangaIsOver":0}}"#;
    let mut payload = [0u8; 1024];
    let n = detail_payload(api, b"5", &mut payload).expect("fits");
    let expected: &[u8] = br#"{"manga":{"id":"mhr:5","title":"N","alternateTitles":[],"description":"I","cover":{"kind":"url","url":"p"},"authors":["A","B"],"artists":[],"status":"ongoing","contentRating":"safe","language":"zh","tags":["x"],"links":[{"kind":"source","url":"http://mangaapi.manhuaren.com/v1/manga/getDetail?mangaId=5"},{"kind":"source","url":"https://www.manhuaren.com/manhua/5"}]}}"#;
    assert_eq!(&payload[..n], expected);
    let mut small = [0u8; 100];
    assert_eq!(detail_payload(api, b"5", &mut small), None);
}

#[test]
fn chapter_list_payload_counts_across_arrays() {
    let api: &[u8] = br#"{"mangaEpisode":[{"sectionId":1,"sectionName":"E"}],"mangaWords":[{"sectionId":2,"sectionName":"W"}]}"#;
    let mut payload = [0u8; 1024];
    let n = chapters_payload(api, b"5", &mut payload).expect("fits");
    let expected = r#"{"items":[{"id":"1","mangaId":"mhr:5","title":"[番外] E","chapterNumber":"0","volumeNumber":null,"language":"zh","publishedAt":null,"updatedAt":null,"pageCount":null},{"id":"2","mangaId":"mhr:5","title":"W","chapterNumber":"0","volumeNumber":null,"language":"zh","publishedAt":null,"updatedAt":null,"pageCount":null}],"page":{"nextCursor":null,"hasMore":false}}"#;
    assert_eq!(&payload[..n], expected.as_bytes());
}

#[test]
fn list_payload_takes_the_fallback_key() {
    let api: &[u8] = br#"{"mangas":[{"mangaId":1,"mangaName":"A"}]}"#;
    let mut payload = [0u8; 1024];
    let n = list_payload(api, b"result", Some(b"mangas"), &mut payload).expect("fits");
    let expected: &[u8] = br#"{"items":[{"id":"mhr:1","title":"A","cover":{"kind":"none"},"authors":[],"status":"unknown","contentRating":"safe","sourceTags":["manhuaren"]}],"page":{"nextCursor":"20","hasMore":true}}"#;
    assert_eq!(&payload[..n], expected);
    let n = list_payload(b"{}", b"result", None, &mut payload).expect("fits");
    assert_eq!(&payload[..n], br#"{"items":[],"page":{"nextCursor":"20","hasMore":false}}"#);
}

#[test]
fn pages_payload_joins_host_path_and_query() {
    let api: &[u8] = br#"{"hostList":["http:\/\/h"],"query":"?k=1","mangaSectionImages":["\/a.jpg","\/b.jpg"]}"#;
    let mut payload = [0u8; 1024];
    match pages_payload(api, b"77", &mut payload) {
        Outcome::Done(n) => {
            let expected: &[u8] = br#"{"chapterId":"77","pages":[{"id":"page:77:0","index":0,"image":{"kind":"url","url":"http://h/a.jpg?k=1"}},{"id":"page:77:1","index":1,"image":{"kind":"url","url":"http://h/b.jpg?k=1"}}]}"#;
            assert_eq!(&payload[..n], expected);
        },
        _ => panic!("pages expected"),
    }
    assert!(matches!(pages_payload(b"{}", b"77", &mut payload), Outcome::Missing));
}

#[test]
fn image_request_uses_url_or_image_url() {
    let mut payload = [0u8; 512];
    match image_request_payload(br#"{"imageUrl":"http:\/\/i"}"#, &mut payload) {
        Outcome::Done(n) => {
            let expected: &[u8] = br#"{"url":"http://i","headers":{"Referer":"http://www.dm5.com/dm5api/","User-Agent":"Dalvik/2.1.0 (Linux; U; Android 13; Koma Build/Koma)"}}"#;
            assert_eq!(&payload[..n], expected);
        },
        _ => panic!("request expected"),
    }
    assert!(matches!(image_request_payload(b"{}", &mut payload), Outcome::Missing));
}

#[test]
fn api_reply_bodies_are_unescaped() {
    let mut out = [0u8; 64];
    let resp: &[u8] = br#"{"ok":true,"bodyText":"{\"a\":\"x\\ny\"}"}"#;
    match decode_api_reply(resp, &mut out) {
        ReplyBody::Body(n) => assert_eq!(&out[..n], b"{\"a\":\"x\\ny\"}"),
        _ => panic!("body expected"),
    }
    assert!(matches!(
        decode_api_reply(br#"{"errorResponse":{}}"#, &mut out),
        ReplyBody::Failed(FetchError::ClientError)
    ));
    assert!(matches!(decode_ok_reply(br#"{"bodyText":"x"}"#, &mut out), ReplyBody::Failed(FetchError::Network)));
    let mut tiny = [0u8; 2];
    assert!(matches!(decode_api_reply(br#"{"bodyText":"abc"}"#, &mut tiny), ReplyBody::Failed(FetchError::Network)));
    assert!(matches!(decode_api_reply(br#"{"bodyText":"ab\\nc"}"#, &mut tiny), ReplyBody::Broken));
}

#[test]
fn anonymous_credentials_join_scheme_and_parameter() {
    let api: &[u8] = br#"{"response":{"userId":123,"scheme":"Bearer","parameter":"tok"}}"#;
    let mut token = [0u8; 64];
    let (uid, n) = read_anony_credentials(api, &mut token).expect("credentials");
    assert_eq!(uid, b"123");
    assert_eq!(&token[..n], b"Bearer tok");
    assert_eq!(read_anony_credentials(br#"{"userId":1}"#, &mut token).err(), Some(FetchError::Network));
}

#[test]
fn authed_request_carries_the_token() {
    let mut dst = [0u8; 2048];
    let n = build_authed_get_request(&mut dst, b"http://x/y", b"Bearer t").expect("fits");
    let text = std::str::from_utf8(&dst[..n]).expect("utf8");
    assert!(text.starts_with(r#"{"version":1,"method":"GET","url":"http://x/y","headers":{"User-Agent":"Dalvik/2.1.0 (Linux; U; Android 13; Koma Build/Koma)","Authorization":"Bearer t","X-Yq-Yqci":"{\"at\":-1,"#));
    assert!(text.ends_with(r#""},"timeoutMs":15000,"responseKind":"bodyText"}"#));
}
