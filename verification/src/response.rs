//! What the S3 handlers answer: error statuses and codes, and the headers of an object.

use vstd::prelude::*;
use crate::chunked::ChunkError;
use crate::num::{decimal, decimal_int, push_i64, push_u64, i64_string};
use crate::quark::QuarkFile;
use crate::text::{append, contains, contains_exec};
use crate::times::{http_time, http_time_ok, secs_of};
use crate::ext::imf_fixdate;
use crate::xml::{modified_at, modified_at_exec};

verus! {

/// An S3 error response: HTTP status, S3 error code, message.
pub struct S3Error {
    pub status: u16,
    pub code: String,
    pub message: String,
}

/// The error that `s3_error_for` answers for a failure whose text is `message`.
pub open spec fn error_for(message: Seq<char>) -> (u16, Seq<char>, Seq<char>) {
    if contains(message, "object not found"@) {
        (404, "NoSuchKey"@, "object not found"@)
    } else if contains(message, "invalid range"@) {
        (416, "InvalidRange"@, "invalid range"@)
    } else {
        (502, "QuarkError"@, message)
    }
}

/// `s3_error_for`: a missing object is `404 NoSuchKey`, a bad range `416 InvalidRange`, any
/// other failure `502 QuarkError` with its text.
pub fn s3_error_for(message: &str) -> (res: S3Error)
    ensures
        (res.status, res.code@, res.message@) == error_for(message@),
{
    if contains_exec(message, "object not found") {
        S3Error { status: 404, code: "NoSuchKey".to_owned(), message: "object not found".to_owned() }
    } else if contains_exec(message, "invalid range") {
        S3Error { status: 416, code: "InvalidRange".to_owned(), message: "invalid range".to_owned() }
    } else {
        S3Error { status: 502, code: "QuarkError".to_owned(), message: message.to_owned() }
    }
}

/// `list_objects`' answer when listing the folder fails: `502 QuarkError` with the failure's
/// text.
pub fn listing_failed(message: &str) -> (res: S3Error)
    ensures
        res.status == 502 && res.code@ == "QuarkError"@ && res.message@ == message@,
{
    S3Error { status: 502, code: "QuarkError".to_owned(), message: message.to_owned() }
}

/// The error for a bucket other than the served one.
pub fn no_such_bucket() -> (res: S3Error)
    ensures
        res.status == 404 && res.code@ == "NoSuchBucket"@ && res.message@ == "bucket not found"@,
{
    S3Error { status: 404, code: "NoSuchBucket".to_owned(), message: "bucket not found".to_owned() }
}

/// The error for a method the gateway does not serve.
pub fn method_not_allowed() -> (res: S3Error)
    ensures
        res.status == 405 && res.code@ == "MethodNotAllowed"@ && res.message@ == "unsupported method"@,
{
    S3Error {
        status: 405,
        code: "MethodNotAllowed".to_owned(),
        message: "unsupported method".to_owned(),
    }
}

/// The text of a body decoding failure, as the error it stands for displays.
pub open spec fn chunk_error_text(e: ChunkError) -> Seq<char> {
    match e {
        ChunkError::InvalidBody => "invalid aws-chunked body"@,
        ChunkError::InvalidUtf8 { valid_up_to, error_len } => match error_len {
            Some(n) => "invalid utf-8 sequence of "@ + decimal(n as nat) + " bytes from index "@
                + decimal(valid_up_to as nat),
            None => "incomplete utf-8 byte sequence from index "@ + decimal(valid_up_to as nat),
        },
        ChunkError::InvalidSize => "invalid aws-chunked size"@,
        ChunkError::LengthMismatch { got, expected } => "invalid aws-chunked decoded length: got "@
            + decimal(got as nat) + ", expected "@ + decimal(expected as nat),
    }
}

pub fn chunk_error_message(e: &ChunkError) -> (res: String)
    ensures
        res@ == chunk_error_text(*e),
{
    let mut out = String::new();
    match e {
        ChunkError::InvalidBody => append(&mut out, "invalid aws-chunked body"),
        ChunkError::InvalidUtf8 { valid_up_to, error_len } => match error_len {
            Some(n) => {
                append(&mut out, "invalid utf-8 sequence of ");
                push_u64(&mut out, *n as u64);
                append(&mut out, " bytes from index ");
                push_u64(&mut out, *valid_up_to as u64);
            },
            None => {
                append(&mut out, "incomplete utf-8 byte sequence from index ");
                push_u64(&mut out, *valid_up_to as u64);
            },
        },
        ChunkError::InvalidSize => append(&mut out, "invalid aws-chunked size"),
        ChunkError::LengthMismatch { got, expected } => {
            append(&mut out, "invalid aws-chunked decoded length: got ");
            push_u64(&mut out, *got as u64);
            append(&mut out, ", expected ");
            push_u64(&mut out, *expected as u64);
        },
    }
    assert(out@ =~= chunk_error_text(*e));
    out
}

/// The status and headers of a `GetObject` or `HeadObject` answer.
pub struct ObjectHeaders {
    pub status: u16,
    pub content_range: Option<String>,
    pub content_length: String,
    pub last_modified: String,
}

/// The headers of `get_object` for `file`: a range gives `206` with `Content-Range` and the
/// range's length, no range gives `200` and the size.
pub open spec fn get_headers_spec(file: QuarkFile, range: Option<(i64, i64)>, h: ObjectHeaders) -> bool {
    &&& h.last_modified@ == imf_fixdate(secs_of(modified_at(file)))
    &&& match range {
        Some((s, e)) => {
            &&& h.status == 206
            &&& h.content_range matches Some(cr) && cr@ == "bytes "@ + decimal_int(s as int) + "-"@
                + decimal_int(e as int) + "/"@ + decimal_int(file.size as int)
            &&& h.content_length@ == decimal_int(e - s + 1)
        },
        None => {
            &&& h.status == 200
            &&& h.content_range is None
            &&& h.content_length@ == decimal_int(file.size as int)
        },
    }
}

/// `get_object`'s answer headers (after the download request succeeded).
pub fn get_object_headers(file: &QuarkFile, range: Option<(i64, i64)>) -> (res: ObjectHeaders)
    requires
        http_time_ok(modified_at(*file)),
        range matches Some((s, e)) ==> 0 <= s <= e < file.size,
    ensures
        get_headers_spec(*file, range, res),
{
    let last_modified = http_time(modified_at_exec(file));
    match range {
        Some((s, e)) => {
            let mut cr = String::new();
            append(&mut cr, "bytes ");
            push_i64(&mut cr, s);
            append(&mut cr, "-");
            push_i64(&mut cr, e);
            append(&mut cr, "/");
            push_i64(&mut cr, file.size);
            assert(cr@ =~= "bytes "@ + decimal_int(s as int) + "-"@ + decimal_int(e as int) + "/"@
                + decimal_int(file.size as int));
            ObjectHeaders {
                status: 206,
                content_range: Some(cr),
                content_length: i64_string(e - s + 1),
                last_modified,
            }
        },
        None => ObjectHeaders {
            status: 200,
            content_range: None,
            content_length: i64_string(file.size),
            last_modified,
        },
    }
}

/// `head_object`'s answer headers: `200`, the size, the modification time.
pub fn head_object_headers(file: &QuarkFile) -> (res: ObjectHeaders)
    requires
        http_time_ok(modified_at(*file)),
    ensures
        get_headers_spec(*file, None, res),
{
    get_object_headers(file, None)
}

/// The object that a `GET` or `HEAD` serves: a file that was found; `None` answers
/// `object not found`.
pub fn object_to_serve(found: Option<QuarkFile>) -> (res: Option<QuarkFile>)
    ensures
        res == (match found {
            Some(f) => if f.file {
                Some(f)
            } else {
                None
            },
            None => None,
        }),
{
    match found {
        Some(f) => if f.file {
            Some(f)
        } else {
            None
        },
        None => None,
    }
}

/// Whether a download answer is usable: a success status (`206 Partial Content` among them).
pub fn download_ok(status: u16) -> (res: bool)
    ensures
        res == (200 <= status <= 299),
{
    200 <= status && status <= 299
}


/// The `Range` header that asks the download for the bytes `start..=end`: `bytes=start-end`.
pub fn range_request_value(start: i64, end: i64) -> (res: String)
    ensures
        res@ == "bytes="@ + decimal_int(start as int) + "-"@ + decimal_int(end as int),
{
    let mut s = String::new();
    append(&mut s, "bytes=");
    push_i64(&mut s, start);
    append(&mut s, "-");
    push_i64(&mut s, end);
    assert(s@ =~= "bytes="@ + decimal_int(start as int) + "-"@ + decimal_int(end as int));
    s
}

/// The error of a download that answered the status `status` (its code and reason, as HTTP
/// writes them) instead of success.
pub fn download_failed_message(status: &str) -> (res: String)
    ensures
        res@ == "download failed "@ + status@,
{
    let mut s = String::new();
    append(&mut s, "download failed ");
    append(&mut s, status);
    assert(s@ =~= "download failed "@ + status@);
    s
}

} // verus!
