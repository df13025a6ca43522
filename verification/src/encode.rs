//! Digest texts: hex digests, the ETag of a body, upload checksums.

use vstd::prelude::*;
use crate::ext::{base64, base64_standard, hex_digit, md5_bytes, md5_of, sha1_bytes, sha1_of};
use crate::text::string_push;

verus! {

/// Lower-case hex of bytes, two digits a byte (`hex::encode`, `format!("{:x}", md5::Digest)`).
pub open spec fn hex_lower(b: Seq<u8>) -> Seq<char>
    decreases b.len(),
{
    if b.len() == 0 {
        Seq::empty()
    } else {
        hex_lower(b.drop_last()) + seq![hex_digit(b.last() as int / 16), hex_digit(b.last() as int % 16)]
    }
}

fn hex_digit_exec(d: u8) -> (res: char)
    requires
        d < 16,
    ensures
        res == hex_digit(d as int),
{
    if d < 10 {
        (48 + d) as char
    } else {
        (97 + d - 10) as char
    }
}

/// `hex::encode`.
pub fn hex_encode(b: &[u8]) -> (res: String)
    ensures
        res@ == hex_lower(b@),
{
    let mut out = String::new();
    let mut i: usize = 0;
    assert(b@.take(0) =~= Seq::<u8>::empty());
    while i < b.len()
        invariant
            i <= b.len(),
            out@ == hex_lower(b@.take(i as int)),
        decreases b.len() - i,
    {
        let ghost t = b@.take(i + 1);
        assert(t.drop_last() == b@.take(i as int));
        assert(t.last() == b@[i as int]);
        string_push(&mut out, hex_digit_exec(b[i] / 16));
        string_push(&mut out, hex_digit_exec(b[i] % 16));
        i += 1;
        assert(out@ =~= hex_lower(b@.take(i as int)));
    }
    assert(b@.take(b.len() as int) == b@);
    out
}

/// The lower-case hex MD5 of `data`.
pub fn md5_hex(data: &[u8]) -> (res: String)
    ensures
        res@ == hex_lower(md5_of(data@)),
{
    let d = md5_bytes(data);
    hex_encode(d.as_slice())
}

/// The lower-case hex SHA-1 of `data`.
pub fn sha1_hex(data: &[u8]) -> (res: String)
    ensures
        res@ == hex_lower(sha1_of(data@)),
{
    let d = sha1_bytes(data);
    hex_encode(d.as_slice())
}

/// The ETag that a `PUT` answers: the hex MD5 of the stored body, in double quotes.
pub fn etag_for(body: &[u8]) -> (res: String)
    ensures
        res@ == seq!['"'] + hex_lower(md5_of(body@)) + seq!['"'],
{
    let mut out = String::new();
    string_push(&mut out, '"');
    let h = md5_hex(body);
    crate::text::append(&mut out, h.as_str());
    string_push(&mut out, '"');
    assert(out@ =~= seq!['"'] + hex_lower(md5_of(body@)) + seq!['"']);
    out
}

/// The `Content-MD5` of a request body: base64 of its MD5 digest.
pub fn content_md5(data: &[u8]) -> (res: String)
    ensures
        res@ == base64(md5_of(data@)),
{
    let d = md5_bytes(data);
    base64_standard(d.as_slice())
}

/// The `x-oss-callback` header of a commit: base64 of the callback's JSON bytes.
pub fn oss_callback(json: &[u8]) -> (res: String)
    ensures
        res@ == base64(json@),
{
    base64_standard(json)
}

} // verus!
