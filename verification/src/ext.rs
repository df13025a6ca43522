//! The calls into outside crates, each behind one trusted item whose contract restates what the
//! crate's source does.

use vstd::prelude::*;
use vstd::utf8::*;
use base64::Engine;
use sha1::Digest;

verus! {

/// Value of an ASCII hex digit byte, as `urlencoding`'s `from_hex_digit`.
pub open spec fn hex_byte_value(b: u8) -> Option<nat> {
    if 48 <= b <= 57 {
        Some((b - 48) as nat)
    } else if 65 <= b <= 70 {
        Some((b - 65 + 10) as nat)
    } else if 97 <= b <= 102 {
        Some((b - 97 + 10) as nat)
    } else {
        None
    }
}

/// Percent-decoding of bytes as `urlencoding::decode_binary` does it: `%` followed by two hex
/// digits becomes that byte; any other byte, a lone `%` included, is kept; `+` stays `+`.
pub open spec fn percent_decode(b: Seq<u8>) -> Seq<u8>
    decreases b.len(),
{
    if b.len() == 0 {
        Seq::empty()
    } else if b[0] == 37 && b.len() >= 3 && hex_byte_value(b[1]) is Some && hex_byte_value(
        b[2],
    ) is Some {
        seq![(hex_byte_value(b[1]).unwrap() * 16 + hex_byte_value(b[2]).unwrap()) as u8]
            + percent_decode(b.skip(3))
    } else {
        seq![b[0]] + percent_decode(b.drop_first())
    }
}

/// What `urlencoding::decode` gives for the text `s`: the percent-decoded bytes as text, or
/// `None` when they are not valid UTF-8.
pub open spec fn url_decoded(s: Seq<char>) -> Option<Seq<char>> {
    let b = percent_decode(encode_utf8(s));
    if valid_utf8(b) {
        Some(decode_utf8(b))
    } else {
        None
    }
}

/// `urlencoding::decode`: percent-decodes the UTF-8 bytes of `s` (`decode_binary`) and reads the
/// result as UTF-8 (`String::from_utf8`); `None` stands for its `FromUtf8Error`.
#[verifier::external_body]
pub(crate) fn url_decode(s: &str) -> (res: Option<String>)
    ensures
        match res {
            Some(r) => url_decoded(s@) == Some(r@),
            None => url_decoded(s@) is None,
        },
{
    match urlencoding::decode(s) {
        Ok(c) => Some(c.into_owned()),
        Err(_) => None,
    }
}

/// What std documents of a `Utf8Error` on `bytes`: `valid_up_to` is the largest index up to
/// which the bytes are valid UTF-8; `error_len` is `None` when the input ends inside a character,
/// 1 to 3 bytes after `valid_up_to`, and otherwise the length of the invalid sequence that starts
/// at `valid_up_to`.
pub open spec fn utf8_error_fields(bytes: Seq<u8>, valid_up_to: usize, error_len: Option<usize>) -> bool {
    &&& valid_up_to <= bytes.len()
    &&& valid_utf8(bytes.take(valid_up_to as int))
    &&& forall|j: int| valid_up_to < j <= bytes.len() ==> !valid_utf8(#[trigger] bytes.take(j))
    &&& match error_len {
        None => 1 <= bytes.len() - valid_up_to <= 3,
        Some(n) => 1 <= n && valid_up_to + n <= bytes.len(),
    }
}

/// `std::str::from_utf8`: `Ok` exactly when the bytes are valid UTF-8; on `Err`, the
/// `Utf8Error`'s `valid_up_to()` and `error_len()`, which hold what std documents of them.
#[verifier::external_body]
pub(crate) fn utf8_check(bytes: &[u8]) -> (res: Result<(), (usize, Option<usize>)>)
    ensures
        res is Ok <==> valid_utf8(bytes@),
        res matches Err((v, l)) ==> utf8_error_fields(bytes@, v, l),
{
    match std::str::from_utf8(bytes) {
        Ok(_) => Ok(()),
        Err(e) => Err((e.valid_up_to(), e.error_len())),
    }
}

/// The RFC 3339 text of the UTC instant `secs` seconds after the Unix epoch, whole seconds and
/// `Z` (`2018-01-26T18:30:09Z`): what `chrono`'s `to_rfc3339_opts(SecondsFormat::Secs, true)`
/// writes.
pub uninterp spec fn rfc3339_utc(secs: u64) -> Seq<char>;

/// `chrono::DateTime::<Utc>::from_timestamp(secs, 0)`, written by
/// `to_rfc3339_opts(SecondsFormat::Secs, true)`. `from_timestamp` has a value up to the end of
/// chrono's last year, 262142; the bound keeps `secs` before 262143-01-01 (and so within `i64`).
#[verifier::external_body]
pub(crate) fn rfc3339_secs(secs: u64) -> (res: Option<String>)
    requires
        secs < 8210266876800,
    ensures
        res is Some,
        res matches Some(r) ==> r@ == rfc3339_utc(secs),
{
    match chrono::DateTime::<chrono::Utc>::from_timestamp(secs as i64, 0) {
        Some(d) => Some(d.to_rfc3339_opts(chrono::SecondsFormat::Secs, true)),
        None => None,
    }
}

/// The IMF-fixdate text (`Sun, 06 Nov 1994 08:49:37 GMT`) of the instant `secs` seconds after
/// the Unix epoch, as `httpdate` writes it.
pub uninterp spec fn imf_fixdate(secs: u64) -> Seq<char>;

/// `httpdate::fmt_http_date(UNIX_EPOCH + secs)`. `HttpDate::from` panics from year 9999 on
/// (`secs >= 253402300800`), which the bound leaves out.
#[verifier::external_body]
pub(crate) fn http_date(secs: u64) -> (res: String)
    requires
        secs < 253402300800,
    ensures
        res@ == imf_fixdate(secs),
{
    httpdate::fmt_http_date(std::time::SystemTime::UNIX_EPOCH + std::time::Duration::from_secs(secs))
}

#[verifier::external_type_specification]
#[verifier::external_body]
pub struct ExSystemTime(std::time::SystemTime);

/// `SystemTime::now()`; nothing is known of the clock.
#[verifier::external_body]
pub(crate) fn system_now() -> std::time::SystemTime {
    std::time::SystemTime::now()
}

/// `t.duration_since(UNIX_EPOCH)`, `None` for a time before the epoch.
#[verifier::external_body]
pub(crate) fn since_unix_epoch(t: &std::time::SystemTime) -> Option<core::time::Duration> {
    t.duration_since(std::time::SystemTime::UNIX_EPOCH).ok()
}

/// `Duration::as_millis`.
#[verifier::external_body]
pub(crate) fn duration_millis(d: &core::time::Duration) -> u128 {
    d.as_millis()
}

/// The MD5 digest of `data`.
pub uninterp spec fn md5_of(data: Seq<u8>) -> Seq<u8>;

/// `md5::compute(data)`: its 16 digest bytes (`Digest(pub [u8; 16])`).
#[verifier::external_body]
pub(crate) fn md5_bytes(data: &[u8]) -> (res: Vec<u8>)
    ensures
        res@ == md5_of(data@),
        res@.len() == 16,
{
    md5::compute(data).0.to_vec()
}

/// The SHA-1 digest of `data`.
pub uninterp spec fn sha1_of(data: Seq<u8>) -> Seq<u8>;

/// `<sha1::Sha1 as Digest>::digest(data)`: its 20 output bytes.
#[verifier::external_body]
pub(crate) fn sha1_bytes(data: &[u8]) -> (res: Vec<u8>)
    ensures
        res@ == sha1_of(data@),
        res@.len() == 20,
{
    sha1::Sha1::digest(data).to_vec()
}

/// The character of the standard base64 alphabet for `i < 64`.
pub open spec fn b64_char(i: int) -> char {
    if i < 26 {
        (65 + i) as char
    } else if i < 52 {
        (97 + i - 26) as char
    } else if i < 62 {
        (48 + i - 52) as char
    } else if i == 62 {
        '+'
    } else {
        '/'
    }
}

/// Standard base64 with `=` padding: each 3 bytes become 4 characters of 6 bits each; a last
/// group of 1 or 2 bytes is padded with `==` or `=`.
pub open spec fn base64(b: Seq<u8>) -> Seq<char>
    decreases b.len(),
{
    if b.len() == 0 {
        Seq::empty()
    } else {
        let x = b[0] as int;
        if b.len() == 1 {
            seq![b64_char(x / 4), b64_char((x % 4) * 16), '=', '=']
        } else {
            let y = b[1] as int;
            if b.len() == 2 {
                seq![b64_char(x / 4), b64_char((x % 4) * 16 + y / 16), b64_char((y % 16) * 4), '=']
            } else {
                let z = b[2] as int;
                seq![
                    b64_char(x / 4),
                    b64_char((x % 4) * 16 + y / 16),
                    b64_char((y % 16) * 4 + z / 64),
                    b64_char(z % 64),
                ] + base64(b.skip(3))
            }
        }
    }
}

/// `base64::engine::general_purpose::STANDARD.encode(data)` (standard alphabet, padded).
#[verifier::external_body]
pub(crate) fn base64_standard(data: &[u8]) -> (res: String)
    ensures
        res@ == base64(data@),
{
    base64::engine::general_purpose::STANDARD.encode(data)
}

/// The MIME type that `mime_guess` keeps for the file extension `ext` in its fixed table (the
/// search ignores case), without parameters; `application/octet-stream` when it knows none.
pub uninterp spec fn ext_mime(ext: Seq<char>) -> Seq<char>;

/// `mime_guess::from_ext(ext).first_or_octet_stream().essence_str()`. An empty extension has no
/// mapping (`from_ext` returns the empty guess), so it gives `application/octet-stream`.
#[verifier::external_body]
pub(crate) fn mime_for_ext(ext: &str) -> (res: String)
    ensures
        res@ == ext_mime(ext@),
        ext@.len() == 0 ==> res@ == "application/octet-stream"@,
{
    mime_guess::from_ext(ext).first_or_octet_stream().essence_str().to_string()
}

/// Lower-case hex digit of `d < 16`.
pub open spec fn hex_digit(d: int) -> char {
    if d < 10 {
        (48 + d) as char
    } else {
        (97 + d - 10) as char
    }
}

/// The JSON escape of one character, as `serde_json` writes it: `"` and `\` escaped with `\`,
/// the control characters below U+0020 as `\b`, `\t`, `\n`, `\f`, `\r` or `\u00xx`; every
/// other character as it is.
pub open spec fn json_char(c: char) -> Seq<char> {
    let u = c as u32;
    if c == '"' {
        seq!['\\', '"']
    } else if c == '\\' {
        seq!['\\', '\\']
    } else if u == 8 {
        seq!['\\', 'b']
    } else if u == 9 {
        seq!['\\', 't']
    } else if u == 10 {
        seq!['\\', 'n']
    } else if u == 12 {
        seq!['\\', 'f']
    } else if u == 13 {
        seq!['\\', 'r']
    } else if u < 32 {
        seq!['\\', 'u', '0', '0', hex_digit((u / 16) as int), hex_digit((u % 16) as int)]
    } else {
        seq![c]
    }
}

pub open spec fn json_chars(s: Seq<char>) -> Seq<char>
    decreases s.len(),
{
    if s.len() == 0 {
        Seq::empty()
    } else {
        json_chars(s.drop_last()) + json_char(s.last())
    }
}

/// A JSON string literal: the escaped characters between double quotes.
pub open spec fn json_string(s: Seq<char>) -> Seq<char> {
    seq!['"'] + json_chars(s) + seq!['"']
}

/// `serde_json::to_string(s)` for a string. It writes into a `Vec`, which cannot fail, and a
/// string serialises without error, so the `Err` of its signature (`None` here) never comes.
#[verifier::external_body]
pub(crate) fn json_string_of(s: &str) -> (res: Option<String>)
    ensures
        res is Some,
        res matches Some(r) ==> r@ == json_string(s@),
{
    serde_json::to_string(s).ok()
}

} // verus!
