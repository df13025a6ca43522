use abucket::chunked::{decode_request_body, find_crlf, BodyHeaders, ChunkError};
use abucket::cookie::{parse_set_cookie_value, set_cookie_value, update_cookie};
use abucket::num::{i64_string, parse_i64_exec, parse_usize_exec, u64_string};
use abucket::query::{parse_query, percent_decode_path};
use abucket::range::{parse_range_header, RangeError};
use abucket::text::{split_exec, trim_exec, trim_char_exec, replace_exec, join_exec};

#[test]
fn text_trim_split_join() {
    assert_eq!(trim_exec("  \t a b \n"), "a b");
    assert_eq!(trim_exec("\u{3000}x\u{a0}"), "x");
    assert_eq!(trim_char_exec("//a/b//", '/'), "a/b");
    assert_eq!(split_exec("a,,b", ','), vec!["a", "", "b"]);
    assert_eq!(split_exec("", ','), vec![""]);
    let parts: Vec<String> = vec!["x".into(), "y".into(), "".into()];
    assert_eq!(join_exec(&parts, "; "), "x; y; ");
    assert_eq!(replace_exec("a__X__b__X__", "__X__", "1"), "a1b1");
}

#[test]
fn numbers_print_and_parse() {
    assert_eq!(u64_string(0), "0");
    assert_eq!(u64_string(18446744073709551615), "18446744073709551615");
    assert_eq!(i64_string(-42), "-42");
    assert_eq!(i64_string(i64::MIN), "-9223372036854775808");
    assert_eq!(parse_usize_exec("1000"), Some(1000));
    assert_eq!(parse_usize_exec("+7"), Some(7));
    assert_eq!(parse_usize_exec("+"), None);
    assert_eq!(parse_usize_exec(""), None);
    assert_eq!(parse_usize_exec("-1"), None);
    assert_eq!(parse_usize_exec("1x"), None);
    assert_eq!(parse_usize_exec("18446744073709551616"), None);
    assert_eq!(parse_i64_exec("-9223372036854775808"), Some(i64::MIN));
    assert_eq!(parse_i64_exec("9223372036854775808"), None);
    assert_eq!(parse_i64_exec("-"), None);
    // The decimal text of a number reads back as the number.
    for n in [0usize, 9, 10, 99, 1000, 123456789] {
        assert_eq!(parse_usize_exec(&u64_string(n as u64)), Some(n));
    }
}

#[test]
fn query_pairs_and_lookup() {
    let q = parse_query("prefix=a%2Fb&&delimiter=%2F&x&prefix=c+d");
    assert_eq!(q.pairs.len(), 4);
    assert_eq!(q.get("prefix"), Some("c+d".to_string()));
    assert_eq!(q.get("delimiter"), Some("/".to_string()));
    assert_eq!(q.get("x"), Some(String::new()));
    assert!(q.contains_key("x"));
    assert!(!q.contains_key("location"));
    // A decoding that is not UTF-8 keeps the text as it is.
    let q = parse_query("k=%FF");
    assert_eq!(q.get("k"), Some("%FF".to_string()));
}

#[test]
fn paths_decode_per_segment() {
    assert_eq!(percent_decode_path("a%20b/c%2Fd/%zz"), "a b/c/d/%zz");
    assert_eq!(percent_decode_path("plain/key.txt"), "plain/key.txt");
    assert_eq!(percent_decode_path("%E4%BD%A0"), "你");
}

#[test]
fn ranges() {
    assert_eq!(parse_range_header(None, 100), Ok(None));
    assert_eq!(parse_range_header(Some("bytes=0-9"), 100), Ok(Some((0, 9))));
    assert_eq!(parse_range_header(Some(" bytes=95- "), 100), Ok(Some((95, 99))));
    assert_eq!(parse_range_header(Some("bytes=50-500"), 100), Ok(Some((50, 99))));
    assert_eq!(parse_range_header(Some("bytes=-10"), 100), Ok(Some((90, 99))));
    assert_eq!(parse_range_header(Some("bytes=-500"), 100), Ok(Some((0, 99))));
    let bad = Err(RangeError::InvalidRange);
    assert_eq!(parse_range_header(Some("bytes=100-"), 100), bad);
    assert_eq!(parse_range_header(Some("items=0-1"), 100), bad);
    assert_eq!(parse_range_header(Some("bytes=5"), 100), bad);
    assert_eq!(parse_range_header(Some("bytes=0-1"), 0), bad);
    assert_eq!(parse_range_header(Some("bytes=-0"), 100), bad);
    assert_eq!(parse_range_header(Some("bytes=5-3"), 100), bad);
    assert_eq!(parse_range_header(Some("bytes=a-3"), 100), bad);
    assert_eq!(parse_range_header(Some("bytes=-5-"), 100), bad);
}

fn chunked_headers(len: Option<&str>) -> BodyHeaders {
    BodyHeaders {
        content_encoding: Some("gzip, AWS-Chunked".to_string()),
        has_decoded_length: len.is_some(),
        decoded_length: len.map(|s| s.to_string()),
    }
}

#[test]
fn aws_chunked_bodies() {
    let body = b"5;chunk-signature=abc\r\nhello\r\n6\r\n world\r\n0\r\n\r\n";
    assert_eq!(decode_request_body(&chunked_headers(None), body), Ok(b"hello world".to_vec()));
    assert_eq!(decode_request_body(&chunked_headers(Some("11")), body), Ok(b"hello world".to_vec()));
    assert_eq!(
        decode_request_body(&chunked_headers(Some("12")), body),
        Err(ChunkError::LengthMismatch { got: 11, expected: 12 })
    );
    // A body that is not chunked passes as it is.
    let plain = BodyHeaders { content_encoding: None, has_decoded_length: false, decoded_length: None };
    assert_eq!(decode_request_body(&plain, body), Ok(body.to_vec()));
    // The decoded-length header alone marks the body as chunked.
    let marked = BodyHeaders { content_encoding: None, has_decoded_length: true, decoded_length: None };
    assert_eq!(decode_request_body(&marked, b"1\r\nA\r\n"), Ok(b"A".to_vec()));
    assert_eq!(decode_request_body(&marked, b"zz\r\nA\r\n"), Err(ChunkError::InvalidSize));
    assert_eq!(decode_request_body(&marked, b"5\r\nAB\r\n"), Err(ChunkError::InvalidBody));
    assert_eq!(decode_request_body(&marked, b"1\r\nAxx"), Err(ChunkError::InvalidBody));
    assert_eq!(decode_request_body(&marked, b"no line end"), Err(ChunkError::InvalidBody));
    assert_eq!(
        decode_request_body(&marked, b"\xff\r\nA\r\n"),
        Err(ChunkError::InvalidUtf8 { valid_up_to: 0, error_len: Some(1) })
    );
}

#[test]
fn crlf_search() {
    assert_eq!(find_crlf(b"ab\r\ncd\r\n", 0), Some(2));
    assert_eq!(find_crlf(b"ab\r\ncd\r\n", 3), Some(6));
    assert_eq!(find_crlf(b"ab\r", 0), None);
    assert_eq!(find_crlf(b"", 0), None);
}

#[test]
fn cookies() {
    assert_eq!(parse_set_cookie_value("__puus=abc; Path=/; HttpOnly", "__puus"), Some("abc".to_string()));
    assert_eq!(parse_set_cookie_value("__pus=x", "__puus"), None);
    assert_eq!(parse_set_cookie_value("__puus", "__puus"), None);
    assert_eq!(set_cookie_value("a=1;  __pus=x ;b=2", "__pus", "y"), "a=1; __pus=y; b=2");
    assert_eq!(set_cookie_value("a=1", "__pus", "y"), "a=1; __pus=y");
    assert_eq!(set_cookie_value("", "__pus", "y"), "__pus=y");
    let sets = vec!["__puus=P1; Path=/".to_string(), "__pus=S1; Path=/".to_string(), "other=1".to_string()];
    assert_eq!(update_cookie("__pus=old; z=9", &sets), "__pus=S1; z=9; __puus=P1");
}

#[test]
fn set_cookie_second_write_wins() {
    let c = "a=1;  __pus=x ;b=2";
    let twice = set_cookie_value(&set_cookie_value(c, "__pus", "y"), "__pus", "z");
    assert_eq!(twice, set_cookie_value(c, "__pus", "z"));
    assert_eq!(twice, "a=1; __pus=z; b=2");
    let added = set_cookie_value(&set_cookie_value("a=1", "__puus", "v "), "__puus", "w");
    assert_eq!(added, set_cookie_value("a=1", "__puus", "w"));
    let same = set_cookie_value("a=1", "__pus", "y");
    assert_eq!(set_cookie_value(&same, "__pus", "y"), same);
}

#[test]
fn chunk_signatures_and_trailer_pass() {
    let marked = BodyHeaders { content_encoding: None, has_decoded_length: true, decoded_length: None };
    let body = b"5;chunk-signature=abc\r\nhello\r\n0;chunk-signature=def\r\nx-amz-checksum-crc32:AAAA\r\n\r\n";
    assert_eq!(decode_request_body(&marked, body), Ok(b"hello".to_vec()));
    // A size line that ends inside a character, and one with a bad byte after a valid prefix.
    assert_eq!(
        decode_request_body(&marked, b"1\xe2\x82\r\nA\r\n"),
        Err(ChunkError::InvalidUtf8 { valid_up_to: 1, error_len: None })
    );
    assert_eq!(
        decode_request_body(&marked, b"12\xff\r\nA\r\n"),
        Err(ChunkError::InvalidUtf8 { valid_up_to: 2, error_len: Some(1) })
    );
}
