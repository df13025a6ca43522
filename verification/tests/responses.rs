use abucket::chunked::ChunkError;
use abucket::encode::{content_md5, etag_for, hex_encode, md5_hex, sha1_hex};
use abucket::quark::QuarkFile;
use abucket::response::{
    chunk_error_message, download_ok, get_object_headers, head_object_headers, listing_failed,
    method_not_allowed, no_such_bucket, object_to_serve, s3_error_for,
};
use abucket::routing::{bucket_action, object_action, path_extension, put_content_type, BucketAction, Method, ObjectAction};
use abucket::times::{chrono_millis, http_time, iso_time, millis_since_epoch};
use abucket::ui::{file_browser_html, wants_html};
use abucket::xml::{list_buckets_xml, location_xml, s3_error_xml, xml_escape};

fn object(size: i64) -> QuarkFile {
    QuarkFile {
        fid: "1".into(),
        file_name: "f".into(),
        size,
        file: true,
        created_at: 784111777000,
        updated_at: 0,
    }
}

#[test]
fn escaping() {
    assert_eq!(xml_escape("a&<>\"'b"), "a&amp;&lt;&gt;&quot;&apos;b");
    assert_eq!(xml_escape("&amp;"), "&amp;amp;");
    let e = xml_escape("<x a='1'>\"");
    assert!(!e.contains('<') && !e.contains('>') && !e.contains('"') && !e.contains('\''));
}

#[test]
fn fixed_bodies() {
    assert_eq!(
        list_buckets_xml("q&"),
        "<?xml version=\"1.0\" encoding=\"UTF-8\"?>\n<ListAllMyBucketsResult xmlns=\"http://s3.amazonaws.com/doc/2006-03-01/\">\n  <Buckets><Bucket><Name>q&amp;</Name></Bucket></Buckets>\n</ListAllMyBucketsResult>"
    );
    assert!(location_xml().ends_with(">us-east-1</LocationConstraint>"));
    assert_eq!(
        s3_error_xml("NoSuchKey", "object not found"),
        "<?xml version=\"1.0\" encoding=\"UTF-8\"?><Error><Code>NoSuchKey</Code><Message>object not found</Message></Error>"
    );
}

#[test]
fn error_classes() {
    let e = s3_error_for("object not found");
    assert_eq!((e.status, e.code.as_str(), e.message.as_str()), (404, "NoSuchKey", "object not found"));
    let e = s3_error_for("invalid range");
    assert_eq!((e.status, e.code.as_str()), (416, "InvalidRange"));
    let e = s3_error_for("quark api error status=500 code=1: boom");
    assert_eq!((e.status, e.code.as_str(), e.message.as_str()), (502, "QuarkError", "quark api error status=500 code=1: boom"));
    assert_eq!(no_such_bucket().status, 404);
    assert_eq!(method_not_allowed().code, "MethodNotAllowed");
    assert_eq!(chunk_error_message(&ChunkError::InvalidSize), "invalid aws-chunked size");
    assert_eq!(
        chunk_error_message(&ChunkError::LengthMismatch { got: 3, expected: 4 }),
        "invalid aws-chunked decoded length: got 3, expected 4"
    );
    assert_eq!(
        chunk_error_message(&ChunkError::InvalidUtf8 { valid_up_to: 2, error_len: Some(1) }),
        "invalid utf-8 sequence of 1 bytes from index 2"
    );
    assert_eq!(
        chunk_error_message(&ChunkError::InvalidUtf8 { valid_up_to: 5, error_len: None }),
        "incomplete utf-8 byte sequence from index 5"
    );
}

#[test]
fn object_headers() {
    let h = get_object_headers(&object(100), Some((10, 19)));
    assert_eq!(h.status, 206);
    assert_eq!(h.content_range.as_deref(), Some("bytes 10-19/100"));
    assert_eq!(h.content_length, "10");
    assert_eq!(h.last_modified, "Sun, 06 Nov 1994 08:49:37 GMT");
    let h = head_object_headers(&object(7));
    assert_eq!((h.status, h.content_length.as_str()), (200, "7"));
    assert!(h.content_range.is_none());
    assert!(object_to_serve(Some(QuarkFile { file: false, ..object(1) })).is_none());
    assert!(object_to_serve(Some(object(1))).is_some());
    assert!(download_ok(206) && download_ok(200) && !download_ok(302) && !download_ok(404));
}

#[test]
fn times() {
    assert_eq!(iso_time(0), "1970-01-01T00:00:00Z");
    assert_eq!(iso_time(-5), "1970-01-01T00:00:00Z");
    assert_eq!(iso_time(1_517_000_000_999), "2018-01-26T20:53:20Z");
    assert_eq!(http_time(784111777000), "Sun, 06 Nov 1994 08:49:37 GMT");
    assert!(chrono_millis() > 1_600_000_000_000);
}

#[test]
fn digests() {
    assert_eq!(hex_encode(&[0x00, 0xab, 0x10]), "00ab10");
    assert_eq!(md5_hex(b""), "d41d8cd98f00b204e9800998ecf8427e");
    assert_eq!(sha1_hex(b"abc"), "a9993e364706816aba3e25717850c26c9cd0d89d");
    assert_eq!(etag_for(b"hello"), "\"5d41402abc4b2a76b9719d911017c592\"");
    assert_eq!(content_md5(b""), "1B2M2Y8AsgTpgAmY7PhCfg==");
    assert_eq!(content_md5(b"hello"), "XUFAKrxLKna5cZ2REBfFkg==");
}

#[test]
fn routing() {
    assert_eq!(bucket_action("x", "quark", Method::Get, None), BucketAction::NoSuchBucket);
    assert_eq!(bucket_action("quark", "quark", Method::Get, Some("location")), BucketAction::Location);
    assert_eq!(bucket_action("quark", "quark", Method::Get, Some("prefix=a")), BucketAction::List("prefix=a".into()));
    assert_eq!(bucket_action("quark", "quark", Method::Put, None), BucketAction::Empty);
    assert_eq!(bucket_action("quark", "quark", Method::Delete, None), BucketAction::MethodNotAllowed);
    assert_eq!(object_action("quark", "quark", "a%20b/c", Method::Get), ObjectAction::Get("a b/c".into()));
    assert_eq!(object_action("quark", "quark", "//", Method::Get), ObjectAction::ListRoot);
    assert_eq!(object_action("quark", "quark", "", Method::Delete), ObjectAction::MethodNotAllowed);
    assert_eq!(object_action("quark", "quark", "k", Method::Other), ObjectAction::MethodNotAllowed);
    assert_eq!(object_action("other", "quark", "k", Method::Get), ObjectAction::NoSuchBucket);
    assert_eq!(put_content_type(Some("text/x"), "a.png"), "text/x");
    assert_eq!(put_content_type(None, "dir/a.txt"), "text/plain");
    assert_eq!(put_content_type(None, "noext"), "application/octet-stream");
    assert_eq!(put_content_type(None, "x\\.txt"), "text/plain");
    assert_eq!(put_content_type(None, "photos/.png"), "application/octet-stream");
    assert_eq!(put_content_type(None, "A.PNG"), "image/png");
}

#[test]
fn extensions_of_keys() {
    assert_eq!(path_extension("dir/a.tar.gz").as_deref(), Some("gz"));
    assert_eq!(path_extension("x\\.txt").as_deref(), Some("txt"));
    assert_eq!(path_extension("dir/.bashrc"), None);
    assert_eq!(path_extension("dir/b.").as_deref(), Some(""));
    assert_eq!(path_extension("a.d/b"), None);
    assert_eq!(path_extension("a/b.txt/"), Some("txt".to_string()));
    assert_eq!(path_extension("a/b.txt/."), Some("txt".to_string()));
    assert_eq!(path_extension("a/.."), None);
    assert_eq!(path_extension("/"), None);
    assert_eq!(path_extension(""), None);
}

#[test]
fn browser_or_tool() {
    assert!(wants_html(Some("text/html,application/xhtml+xml"), Some("Mozilla/5.0")));
    assert!(!wants_html(Some("text/html"), Some("curl/8.0")));
    assert!(!wants_html(Some("text/html"), Some("Python-Requests/2.31")));
    assert!(!wants_html(Some("application/xml"), Some("Mozilla/5.0")));
    assert!(wants_html(Some("application/xml, text/html;q=0.9"), None));
    assert!(!wants_html(None, None));
    assert_eq!(
        file_browser_html("<script>const p = __CONFIG_PATH_JSON__;</script>__CONFIG_PATH_JSON__", "/api/\"c\".yaml"),
        "<script>const p = \"/api/\\\"c\\\".yaml\";</script>\"/api/\\\"c\\\".yaml\""
    );
    assert_eq!(file_browser_html("x", "\n"), "x");
    assert_eq!(file_browser_html("__CONFIG_PATH_JSON__", "\u{1}\n"), "\"\\u0001\\n\"");
}

#[test]
fn millis_since_epoch_of_readings() {
    assert_eq!(millis_since_epoch(None), 0);
    assert_eq!(millis_since_epoch(Some(1_700_000_000_123)), 1_700_000_000_123);
    assert_eq!(millis_since_epoch(Some((1u128 << 64) | 5)), 5);
    assert_eq!(millis_since_epoch(Some(1u128 << 63)), i64::MIN);
}

#[test]
fn failed_listing_is_bad_gateway() {
    let e = listing_failed("quark api error status=500 code=1: boom");
    assert_eq!(e.status, 502);
    assert_eq!(e.code, "QuarkError");
    assert_eq!(e.message, "quark api error status=500 code=1: boom");
}
