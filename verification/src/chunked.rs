//! Request bodies sent with `Content-Encoding: aws-chunked`: `decode_request_body`.

use vstd::prelude::*;
use vstd::utf8::valid_utf8;
use crate::ext::{utf8_check, utf8_error_fields};
use crate::num::{parse_usize, parse_usize_chars};
use crate::text::{
    ascii_lower, ascii_lower_exec, lemma_split_concat, lemma_split_free, split, split_exec, trim,
    trim_exec, views,
};
use crate::num::{all_digits, digit_value, digits_value};
use vstd::utf8::{is_leading_byte_width_1, partial_valid_utf8, partial_valid_utf8_extend_ascii_block};

verus! {

/// Position of the first `\r\n` in `bytes` at or after `start`.
pub open spec fn crlf_at(bytes: Seq<u8>, i: int) -> bool {
    0 <= i && i + 1 < bytes.len() && bytes[i] == 13 && bytes[i + 1] == 10
}

pub open spec fn find_crlf_spec(bytes: Seq<u8>, start: int) -> Option<int>
    decreases bytes.len() - start,
{
    if start < 0 || start + 1 >= bytes.len() {
        None
    } else if crlf_at(bytes, start) {
        Some(start)
    } else {
        find_crlf_spec(bytes, start + 1)
    }
}

/// `find_crlf`: the index of the first `\r\n` that starts at or after `start`.
pub fn find_crlf(bytes: &[u8], start: usize) -> (res: Option<usize>)
    requires
        start <= bytes.len(),
    ensures
        match res {
            Some(i) => find_crlf_spec(bytes@, start as int) == Some(i as int),
            None => find_crlf_spec(bytes@, start as int) is None,
        },
        res matches Some(i) ==> start <= i && crlf_at(bytes@, i as int) && forall|j: int|
            start <= j < i ==> !crlf_at(bytes@, j),
        res is None ==> forall|j: int| start <= j ==> !crlf_at(bytes@, j),
    decreases bytes.len() - start,
{
    if start >= bytes.len() || bytes.len() - start < 2 {
        return None;
    }
    if bytes[start] == 13 && bytes[start + 1] == 10 {
        return Some(start);
    }
    find_crlf(bytes, start + 1)
}

/// Why an aws-chunked body was refused.
#[derive(Debug, PartialEq, Eq, Structural)]
pub enum ChunkError {
    /// A size line without `\r\n`, or a chunk not followed by `\r\n`.
    InvalidBody,
    /// A size line that is not UTF-8: `valid_up_to` and `error_len` of the `Utf8Error`.
    InvalidUtf8 { valid_up_to: usize, error_len: Option<usize> },
    /// A chunk size that is not hexadecimal.
    InvalidSize,
    /// The decoded length differs from `x-amz-decoded-content-length`.
    LengthMismatch { got: usize, expected: usize },
}

/// The kind of a `ChunkError`; for a size line that is not UTF-8, that line.
pub enum ChunkFault {
    Body,
    Utf8(Ghost<Seq<u8>>),
    Size,
}

/// The bytes of `line` before its first `;`.
pub open spec fn before_semicolon(line: Seq<u8>) -> Seq<u8>
    decreases line.len(),
{
    if line.len() == 0 {
        Seq::empty()
    } else if line[0] == 59 {
        Seq::empty()
    } else {
        seq![line[0]] + before_semicolon(line.drop_first())
    }
}

/// Bytes read as characters one for one, as `from_str_radix` reads its input.
pub open spec fn byte_chars(b: Seq<u8>) -> Seq<char> {
    b.map_values(|x: u8| x as char)
}

/// The chunks of `body` from `pos` on, decoded: each is a hex size line (`;` extensions ignored),
/// `\r\n`, the data, `\r\n`; a zero size ends the body, and so does the end of the input.
pub open spec fn decode_chunks(body: Seq<u8>, pos: int) -> Result<Seq<u8>, ChunkFault>
    decreases body.len() - pos,
{
    if pos < 0 || pos >= body.len() {
        Ok(Seq::empty())
    } else {
        match find_crlf_spec(body, pos) {
            None => Err(ChunkFault::Body),
            Some(le) => {
                let line = body.subrange(pos, le);
                if !valid_utf8(line) {
                    Err(ChunkFault::Utf8(Ghost(line)))
                } else {
                    match parse_usize(byte_chars(before_semicolon(line)), 16) {
                        None => Err(ChunkFault::Size),
                        Some(size) => {
                            let p = le + 2;
                            if size == 0 {
                                Ok(Seq::empty())
                            } else if p + size + 2 > body.len() || body[p + size] != 13 || body[p
                                + size + 1] != 10 {
                                Err(ChunkFault::Body)
                            } else if p <= pos {
                                Err(ChunkFault::Body)
                            } else {
                                match decode_chunks(body, p + size + 2) {
                                    Ok(rest) => Ok(body.subrange(p, p + size) + rest),
                                    Err(f) => Err(f),
                                }
                            }
                        },
                    }
                }
            },
        }
    }
}

/// The error that stands for a decoding fault: for a size line that is not UTF-8, the
/// `from_utf8` details of that line.
pub open spec fn error_for_fault(e: ChunkError, f: ChunkFault) -> bool {
    match f {
        ChunkFault::Body => e == ChunkError::InvalidBody,
        ChunkFault::Size => e == ChunkError::InvalidSize,
        ChunkFault::Utf8(line) => e matches ChunkError::InvalidUtf8 { valid_up_to, error_len }
            && utf8_error_fields(line@, valid_up_to, error_len),
    }
}

/// The request headers that decide how a body is read.
pub struct BodyHeaders {
    /// `Content-Encoding`, when present and readable as text.
    pub content_encoding: Option<String>,
    /// Whether `x-amz-decoded-content-length` is present.
    pub has_decoded_length: bool,
    /// `x-amz-decoded-content-length`, when present and readable as text.
    pub decoded_length: Option<String>,
}

pub open spec fn aws_chunked_word() -> Seq<char> {
    seq!['a', 'w', 's', '-', 'c', 'h', 'u', 'n', 'k', 'e', 'd']
}

/// Some `,`-separated item of `enc`, trimmed, is `aws-chunked` up to ASCII case.
pub open spec fn names_aws_chunked(enc: Seq<char>) -> bool {
    exists|i: int|
        0 <= i < split(enc, ',').len() && ascii_lower(trim(#[trigger] split(enc, ',')[i]))
            == aws_chunked_word()
}

/// Which `Content-Encoding` values mark an aws-chunked body: a value of one item does exactly
/// when that item, trimmed and in ASCII lower case, is `aws-chunked` (so `gzip` does not, and
/// ` AWS-Chunked ` does); a list of items does exactly when one of its items does.
pub proof fn law_aws_chunked_encodings(w: Seq<char>, a: Seq<char>, b: Seq<char>)
    requires
        !w.contains(','),
    ensures
        names_aws_chunked(w) <==> ascii_lower(trim(w)) == seq![
            'a',
            'w',
            's',
            '-',
            'c',
            'h',
            'u',
            'n',
            'k',
            'e',
            'd',
        ],
        names_aws_chunked(a + seq![','] + b) <==> (names_aws_chunked(a) || names_aws_chunked(b)),
{
    lemma_split_free(w, ',');
    assert(split(w, ',')[0] == w);
    let word = seq!['a', 'w', 's', '-', 'c', 'h', 'u', 'n', 'k', 'e', 'd'];
    assert(aws_chunked_word() =~= word);
    lemma_split_concat(a, b, ',');
    let pa = split(a, ',');
    let pb = split(b, ',');
    let pab = split(a + seq![','] + b, ',');
    assert(pab == pa + pb);
    if names_aws_chunked(a + seq![','] + b) {
        let i = choose|i: int|
            0 <= i < pab.len() && ascii_lower(trim(#[trigger] pab[i])) == aws_chunked_word();
        if i < pa.len() {
            assert(pab[i] == pa[i]);
        } else {
            assert(pab[i] == pb[i - pa.len()]);
        }
    }
    if names_aws_chunked(a) {
        let i = choose|i: int|
            0 <= i < pa.len() && ascii_lower(trim(#[trigger] pa[i])) == aws_chunked_word();
        assert(pab[i] == pa[i]);
    }
    if names_aws_chunked(b) {
        let i = choose|i: int|
            0 <= i < pb.len() && ascii_lower(trim(#[trigger] pb[i])) == aws_chunked_word();
        assert(pab[pa.len() + i] == pb[i]);
    }
}

/// The body is aws-chunked.
pub open spec fn is_aws_chunked(h: BodyHeaders) -> bool {
    (h.content_encoding matches Some(e) && names_aws_chunked(e@)) || h.has_decoded_length
}

fn names_aws_chunked_exec(enc: &str) -> (res: bool)
    ensures
        res == names_aws_chunked(enc@),
{
    let parts = split_exec(enc, ',');
    let word = "aws-chunked";
    proof {
        reveal_strlit("aws-chunked");
        assert(word@ =~= aws_chunked_word());
    }
    let mut i: usize = 0;
    while i < parts.len()
        invariant
            i <= parts.len(),
            views(parts@) == split(enc@, ','),
            word@ == aws_chunked_word(),
            forall|j: int| 0 <= j < i ==> ascii_lower(trim(#[trigger] split(enc@, ',')[j]))
                != aws_chunked_word(),
        decreases parts.len() - i,
    {
        let t = trim_exec(parts[i].as_str());
        let l = ascii_lower_exec(t.as_str());
        assert(views(parts@)[i as int] == parts@[i as int]@);
        if l == word.to_owned() {
            return true;
        }
        i += 1;
    }
    false
}

/// `acc` in front of a successful decoding; a failure stays as it is.
pub open spec fn after(acc: Seq<u8>, r: Result<Seq<u8>, ChunkFault>) -> Result<Seq<u8>, ChunkFault> {
    match r {
        Ok(d) => Ok(acc + d),
        Err(f) => Err(f),
    }
}

/// The characters of the bytes of `line` before its first `;`.
fn size_field(line: &[u8]) -> (res: Vec<char>)
    ensures
        res@ == byte_chars(before_semicolon(line@)),
{
    let mut k: usize = 0;
    let mut hex: Vec<char> = Vec::new();
    assert(line@.skip(0) == line@);
    while k < line.len() && line[k] != 59
        invariant
            k <= line.len(),
            hex@ == byte_chars(line@.take(k as int)),
            before_semicolon(line@) == line@.take(k as int) + before_semicolon(line@.skip(k as int)),
        decreases line.len() - k,
    {
        assert(line@.skip(k as int).drop_first() == line@.skip(k + 1));
        assert(line@.skip(k as int)[0] == line@[k as int]);
        hex.push(line[k] as char);
        k += 1;
        assert(line@.take(k as int) == line@.take(k - 1).push(line@[k - 1]));
        assert(hex@ =~= byte_chars(line@.take(k as int)));
    }
    if k < line.len() {
        assert(line@.skip(k as int)[0] == 59);
    } else {
        assert(line@.skip(k as int).len() == 0);
    }
    assert(before_semicolon(line@) == line@.take(k as int));
    hex
}

/// Decodes the chunks of `body`, appending the data to `out`.
fn decode_chunks_exec(body: &[u8], out: &mut Vec<u8>) -> (res: Result<(), ChunkError>)
    ensures
        match decode_chunks(body@, 0) {
            Ok(d) => res is Ok && final(out)@ == old(out)@ + d,
            Err(f) => res matches Err(e) && error_for_fault(e, f),
        },
{
    let mut pos: usize = 0;
    let ghost start = out@;
    let ghost acc: Seq<u8> = Seq::empty();
    assert(start + acc == start);
    loop
        invariant
            pos <= body.len(),
            start == old(out)@,
            out@ == start + acc,
            decode_chunks(body@, 0) == after(acc, decode_chunks(body@, pos as int)),
        decreases body.len() - pos,
    {
        if pos >= body.len() {
            assert(acc + Seq::<u8>::empty() == acc);
            return Ok(());
        }
        let le = match find_crlf(body, pos) {
            None => return Err(ChunkError::InvalidBody),
            Some(le) => le,
        };
        let line = vstd::slice::slice_subrange(body, pos, le);
        match utf8_check(line) {
            Err((v, l)) => return Err(ChunkError::InvalidUtf8 { valid_up_to: v, error_len: l }),
            Ok(()) => {},
        }
        let hex = size_field(line);
        let size = match parse_usize_chars(&hex, 16) {
            None => return Err(ChunkError::InvalidSize),
            Some(s) => s,
        };
        let p = le + 2;
        if size == 0 {
            assert(acc + Seq::<u8>::empty() == acc);
            return Ok(());
        }
        if size > body.len() - p || body.len() - p - size < 2 || body[p + size] != 13 || body[p
            + size + 1] != 10 {
            return Err(ChunkError::InvalidBody);
        }
        let ghost before = out@;
        let mut k: usize = p;
        while k < p + size
            invariant
                p <= k <= p + size,
                p + size + 2 <= body.len(),
                out@ == before + body@.subrange(p as int, k as int),
            decreases p + size - k,
        {
            out.push(body[k]);
            k += 1;
            assert(out@ =~= before + body@.subrange(p as int, k as int));
        }
        let ghost old_acc = acc;
        let ghost chunk = body@.subrange(p as int, p + size);
        let ghost next = (p + size + 2) as int;
        assert(decode_chunks(body@, pos as int) == after(chunk, decode_chunks(body@, next)));
        proof {
            acc = acc + chunk;
            assert(out@ =~= start + acc);
            match decode_chunks(body@, next) {
                Ok(r) => {
                    assert(old_acc + (chunk + r) =~= acc + r);
                },
                Err(_) => {},
            }
        }
        pos = p + size + 2;
    }
}

/// `decode_request_body`: a body that is not aws-chunked is returned as it is; an aws-chunked one
/// is decoded, and its length checked against `x-amz-decoded-content-length` when that reads as a
/// number.
pub fn decode_request_body(headers: &BodyHeaders, body: &[u8]) -> (res: Result<Vec<u8>, ChunkError>)
    ensures
        !is_aws_chunked(*headers) ==> (res matches Ok(v) && v@ == body@),
        is_aws_chunked(*headers) ==> match decode_chunks(body@, 0) {
            Err(f) => res matches Err(e) && error_for_fault(e, f),
            Ok(d) => match headers.decoded_length {
                Some(t) => match parse_usize(t@, 10) {
                    Some(n) => if d.len() == n {
                        res matches Ok(v) && v@ == d
                    } else {
                        res == Err::<Vec<u8>, ChunkError>(
                            ChunkError::LengthMismatch { got: d.len() as usize, expected: n },
                        )
                    },
                    None => res matches Ok(v) && v@ == d,
                },
                None => res matches Ok(v) && v@ == d,
            },
        },
{
    let chunked = match &headers.content_encoding {
        Some(e) => names_aws_chunked_exec(e.as_str()),
        None => false,
    } || headers.has_decoded_length;
    if !chunked {
        return Ok(vstd::slice::slice_to_vec(body));
    }
    let mut out: Vec<u8> = Vec::new();
    match decode_chunks_exec(body, &mut out) {
        Err(e) => return Err(e),
        Ok(()) => {},
    }
    assert(out@ =~= Seq::<u8>::empty() + out@);
    if let Some(t) = &headers.decoded_length {
        let tc = crate::text::chars_of(t.as_str());
        if let Some(n) = parse_usize_chars(&tc, 10) {
            if out.len() != n {
                return Err(ChunkError::LengthMismatch { got: out.len(), expected: n });
            }
        }
    }
    Ok(out)
}

/// The ASCII byte of the lower-case hex digit `d < 16`.
pub open spec fn hex_digit_byte(d: nat) -> u8 {
    if d < 10 {
        (48 + d) as u8
    } else {
        (87 + d) as u8
    }
}

/// The lower-case hex digits of `n`, as ASCII bytes.
pub open spec fn hex_size(n: nat) -> Seq<u8>
    decreases n,
{
    if n < 16 {
        seq![hex_digit_byte(n)]
    } else {
        hex_size(n / 16).push(hex_digit_byte(n % 16))
    }
}

pub open spec fn crlf() -> Seq<u8> {
    seq![13u8, 10u8]
}

/// A chunk extension that decoding passes over: empty, or `;` and then ASCII text without `\r`
/// (such as `;chunk-signature=...`).
pub open spec fn skippable_ext(ext: Seq<u8>) -> bool {
    &&& ext.len() == 0 || ext[0] == 59
    &&& forall|i: int| 0 <= i < ext.len() ==> ext[i] < 128 && ext[i] != 13
}

/// One aws-chunked chunk: the data's size in hex and the extension `ext`, `\r\n`, the data,
/// `\r\n`.
pub open spec fn chunk(data: Seq<u8>, ext: Seq<u8>) -> Seq<u8> {
    hex_size(data.len()) + ext + crlf() + data + crlf()
}

/// The aws-chunked encoding of `pieces`, the chunk of `pieces[i]` with the extension `exts[i]`,
/// then the last chunk `0`, with the extension `last_ext`, `\r\n`, and the trailer (trailing
/// headers and the closing `\r\n`).
pub open spec fn aws_chunked(
    pieces: Seq<Seq<u8>>,
    exts: Seq<Seq<u8>>,
    last_ext: Seq<u8>,
    trailer: Seq<u8>,
) -> Seq<u8>
    decreases pieces.len(),
{
    if pieces.len() == 0 {
        seq![48u8] + last_ext + crlf() + trailer
    } else {
        chunk(pieces[0], exts[0]) + aws_chunked(pieces.drop_first(), exts.drop_first(), last_ext, trailer)
    }
}

/// The pieces one after another.
pub open spec fn flatten(pieces: Seq<Seq<u8>>) -> Seq<u8>
    decreases pieces.len(),
{
    if pieces.len() == 0 {
        Seq::empty()
    } else {
        pieces[0] + flatten(pieces.drop_first())
    }
}

proof fn lemma_hex_size(n: nat)
    ensures
        hex_size(n).len() >= 1,
        forall|i: int|
            0 <= i < hex_size(n).len() ==> {
                let b = #[trigger] hex_size(n)[i];
                (48 <= b <= 57 || 97 <= b <= 102)
            },
        all_digits(byte_chars(hex_size(n)), 16),
        digits_value(byte_chars(hex_size(n)), 16) == n,
    decreases n,
{
    if n >= 16 {
        lemma_hex_size(n / 16);
        let h = hex_size(n / 16);
        let d = (n % 16) as nat;
        let b = hex_digit_byte(d);
        assert(hex_size(n) == h.push(b));
        assert(byte_chars(hex_size(n)) =~= byte_chars(h).push(b as char));
        assert(byte_chars(hex_size(n)).drop_last() =~= byte_chars(h));
        assert(digit_value(b as char, 16) == Some(d));
        assert((n / 16) * 16 + n % 16 == n) by (nonlinear_arith);
        assert(byte_chars(hex_size(n)).last() == b as char);
        assert(digits_value(byte_chars(hex_size(n)), 16) == digits_value(byte_chars(h), 16) * 16 + d);
        assert forall|i: int| 0 <= i < byte_chars(hex_size(n)).len() implies (#[trigger] digit_value(
            byte_chars(hex_size(n))[i],
            16,
        )) is Some by {
            if i < h.len() {
                assert(byte_chars(hex_size(n))[i] == byte_chars(h)[i]);
            }
        }
        assert forall|i: int| 0 <= i < hex_size(n).len() implies {
            let x = #[trigger] hex_size(n)[i];
            (48 <= x <= 57 || 97 <= x <= 102)
        } by {
            if i < h.len() {
                assert(hex_size(n)[i] == h[i]);
            }
        }
    } else {
        let b = hex_digit_byte(n);
        assert(byte_chars(hex_size(n)) =~= seq![b as char]);
        assert(digit_value(b as char, 16) == Some(n));
        assert(byte_chars(hex_size(n)).drop_last() =~= Seq::<char>::empty());
        assert(byte_chars(hex_size(n)).last() == b as char);
        assert(digits_value(byte_chars(hex_size(n)), 16) == digits_value(Seq::<char>::empty(), 16) * 16 + n);
    }
}

proof fn lemma_hex_size_parses(n: nat)
    requires
        n <= usize::MAX,
    ensures
        parse_usize(byte_chars(hex_size(n)), 16) == Some(n as usize),
{
    lemma_hex_size(n);
    let c = byte_chars(hex_size(n));
    assert(c[0] == hex_size(n)[0] as char);
    assert(c[0] != '+' && c[0] != '-');
}

proof fn lemma_find_crlf_first(bytes: Seq<u8>, start: int, j: int)
    requires
        0 <= start <= j,
        crlf_at(bytes, j),
        forall|i: int| start <= i < j ==> !crlf_at(bytes, i),
    ensures
        find_crlf_spec(bytes, start) == Some(j),
    decreases j - start,
{
    if start < j {
        lemma_find_crlf_first(bytes, start + 1, j);
    }
}

proof fn lemma_find_crlf_shift(pre: Seq<u8>, s: Seq<u8>, k: int)
    requires
        0 <= k,
    ensures
        find_crlf_spec(pre + s, pre.len() + k) == (match find_crlf_spec(s, k) {
            Some(i) => Some(i + pre.len()),
            None => None,
        }),
    decreases s.len() - k,
{
    let b = pre + s;
    let p = pre.len() as int;
    if k + 1 < s.len() {
        assert(b[p + k] == s[k] && b[p + k + 1] == s[k + 1]);
        lemma_find_crlf_shift(pre, s, k + 1);
    }
}

proof fn lemma_decode_shift(pre: Seq<u8>, s: Seq<u8>, k: int)
    requires
        0 <= k,
    ensures
        decode_chunks(pre + s, pre.len() + k) == decode_chunks(s, k),
    decreases s.len() - k,
{
    let b = pre + s;
    let p = pre.len() as int;
    if k < s.len() {
        lemma_find_crlf_shift(pre, s, k);
        lemma_find_crlf_bounds(s, k);
        match find_crlf_spec(s, k) {
            None => {},
            Some(le) => {
                assert(b.subrange(p + k, p + le) =~= s.subrange(k, le));
                let line = s.subrange(k, le);
                if valid_utf8(line) {
                    match parse_usize(byte_chars(before_semicolon(line)), 16) {
                        None => {},
                        Some(size) => {
                            let q = le + 2;
                            if size != 0 && q + size + 2 <= s.len() {
                                assert(b[p + q + size] == s[q + size]);
                                assert(b[p + q + size + 1] == s[q + size + 1]);
                                assert(b.subrange(p + q, p + q + size) =~= s.subrange(q, q + size));
                                if q > k {
                                    lemma_decode_shift(pre, s, q + size + 2);
                                }
                            }
                        },
                    }
                }
            },
        }
    }
}

proof fn lemma_find_crlf_bounds(bytes: Seq<u8>, start: int)
    ensures
        find_crlf_spec(bytes, start) matches Some(i) ==> start <= i && crlf_at(bytes, i),
    decreases bytes.len() - start,
{
    if start >= 0 && start + 1 < bytes.len() && !crlf_at(bytes, start) {
        lemma_find_crlf_bounds(bytes, start + 1);
    }
}

proof fn lemma_no_semicolon(line: Seq<u8>)
    requires
        forall|i: int| 0 <= i < line.len() ==> line[i] != 59,
    ensures
        before_semicolon(line) == line,
    decreases line.len(),
{
    if line.len() > 0 {
        assert forall|i: int| 0 <= i < line.drop_first().len() implies line.drop_first()[i] != 59 by {
            assert(line.drop_first()[i] == line[i + 1]);
        }
        lemma_no_semicolon(line.drop_first());
        assert(seq![line[0]] + line.drop_first() =~= line);
    }
}

proof fn lemma_ascii_valid(b: Seq<u8>)
    requires
        forall|i: int| 0 <= i < b.len() ==> b[i] < 128,
    ensures
        valid_utf8(b),
{
    assert(b.subrange(0, 0) =~= Seq::<u8>::empty());
    assert(partial_valid_utf8(b, 0));
    assert forall|i: int| 0 <= 0 <= i < b.len() <= b.len() implies #[trigger] is_leading_byte_width_1(b[i]) by {}
    partial_valid_utf8_extend_ascii_block(b, 0, b.len() as int);
    assert(b.subrange(0, b.len() as int) =~= b);
}

/// The size line of a chunk reads as the chunk's size.
proof fn lemma_size_line(n: nat)
    requires
        n <= usize::MAX,
    ensures
        valid_utf8(hex_size(n)),
        parse_usize(byte_chars(before_semicolon(hex_size(n))), 16) == Some(n as usize),
        forall|i: int| 0 <= i < hex_size(n).len() ==> hex_size(n)[i] != 13,
{
    lemma_hex_size(n);
    let h = hex_size(n);
    assert forall|i: int| 0 <= i < h.len() implies h[i] != 59 && h[i] < 128 && h[i] != 13 by {
        let x = h[i];
        assert(48 <= x <= 57 || 97 <= x <= 102);
    }
    lemma_no_semicolon(h);
    lemma_ascii_valid(h);
    lemma_hex_size_parses(n);
}

proof fn lemma_before_semicolon_concat(a: Seq<u8>, b: Seq<u8>)
    requires
        forall|i: int| 0 <= i < a.len() ==> a[i] != 59,
    ensures
        before_semicolon(a + b) == a + before_semicolon(b),
    decreases a.len(),
{
    if a.len() == 0 {
        assert(a + b =~= b);
        assert(a + before_semicolon(b) =~= before_semicolon(b));
    } else {
        assert forall|i: int| 0 <= i < a.drop_first().len() implies a.drop_first()[i] != 59 by {
            assert(a.drop_first()[i] == a[i + 1]);
        }
        lemma_before_semicolon_concat(a.drop_first(), b);
        assert((a + b)[0] == a[0]);
        assert((a + b).drop_first() =~= a.drop_first() + b);
        assert(seq![a[0]] + (a.drop_first() + before_semicolon(b)) =~= a + before_semicolon(b));
    }
}

/// The size line of a chunk, with a skippable extension, reads as the chunk's size.
proof fn lemma_size_line_ext(n: nat, ext: Seq<u8>)
    requires
        n <= usize::MAX,
        skippable_ext(ext),
    ensures
        valid_utf8(hex_size(n) + ext),
        parse_usize(byte_chars(before_semicolon(hex_size(n) + ext)), 16) == Some(n as usize),
        forall|i: int| 0 <= i < (hex_size(n) + ext).len() ==> (hex_size(n) + ext)[i] != 13,
{
    lemma_size_line(n);
    lemma_hex_size(n);
    let h = hex_size(n);
    let line = h + ext;
    assert forall|i: int| 0 <= i < h.len() implies h[i] != 59 && h[i] < 128 by {
        let x = h[i];
        assert(48 <= x <= 57 || 97 <= x <= 102);
    }
    lemma_before_semicolon_concat(h, ext);
    assert(before_semicolon(ext) =~= Seq::<u8>::empty());
    assert(h + before_semicolon(ext) =~= h);
    lemma_no_semicolon(h);
    assert forall|i: int| 0 <= i < line.len() implies line[i] < 128 && line[i] != 13 by {
        if i >= h.len() {
            assert(line[i] == ext[i - h.len()]);
        } else {
            assert(line[i] == h[i]);
        }
    }
    lemma_ascii_valid(line);
}

proof fn lemma_decode_chunk(data: Seq<u8>, ext: Seq<u8>, rest: Seq<u8>)
    requires
        0 < data.len() <= usize::MAX,
        skippable_ext(ext),
    ensures
        decode_chunks(chunk(data, ext) + rest, 0) == after(data, decode_chunks(rest, 0)),
{
    let n = data.len();
    let line = hex_size(n) + ext;
    lemma_size_line_ext(n, ext);
    let body = chunk(data, ext) + rest;
    let hl = line.len() as int;
    assert(body =~= line + (crlf() + data + crlf() + rest));
    assert forall|i: int| 0 <= i < hl implies !crlf_at(body, i) by {
        assert(body[i] == line[i]);
    }
    assert(body[hl] == 13 && body[hl + 1] == 10);
    lemma_find_crlf_first(body, 0, hl);
    assert(body.subrange(0, hl) =~= line);
    let p = hl + 2;
    assert(body[p + n] == 13 && body[p + n + 1] == 10);
    assert(body.subrange(p, p + n) =~= data);
    let next = p + n + 2;
    assert(chunk(data, ext).len() == next);
    lemma_decode_shift(chunk(data, ext), rest, 0);
}

/// A body sent as aws-chunked pieces decodes to the pieces one after another, whatever chunk
/// extensions (such as chunk signatures) the chunks carry and whatever trailer follows the last
/// chunk.
pub proof fn law_aws_chunked_roundtrip(
    pieces: Seq<Seq<u8>>,
    exts: Seq<Seq<u8>>,
    last_ext: Seq<u8>,
    trailer: Seq<u8>,
)
    requires
        exts.len() == pieces.len(),
        forall|i: int|
            0 <= i < pieces.len() ==> 0 < (#[trigger] pieces[i]).len() <= usize::MAX
                && skippable_ext(exts[i]),
        skippable_ext(last_ext),
    ensures
        decode_chunks(aws_chunked(pieces, exts, last_ext, trailer), 0) == Ok::<
            Seq<u8>,
            ChunkFault,
        >(flatten(pieces)),
    decreases pieces.len(),
{
    if pieces.len() == 0 {
        let body = aws_chunked(pieces, exts, last_ext, trailer);
        let z = seq![48u8];
        assert(hex_size(0) =~= z);
        lemma_size_line_ext(0, last_ext);
        let line = z + last_ext;
        let hl = line.len() as int;
        assert(body =~= line + (crlf() + trailer));
        assert forall|i: int| 0 <= i < hl implies !crlf_at(body, i) by {
            assert(body[i] == line[i]);
        }
        assert(crlf_at(body, hl));
        lemma_find_crlf_first(body, 0, hl);
        assert(body.subrange(0, hl) =~= line);
    } else {
        assert forall|i: int| 0 <= i < pieces.drop_first().len() implies 0 < (
        #[trigger] pieces.drop_first()[i]).len() <= usize::MAX && skippable_ext(
            exts.drop_first()[i],
        ) by {
            assert(pieces.drop_first()[i] == pieces[i + 1]);
            assert(exts.drop_first()[i] == exts[i + 1]);
        }
        law_aws_chunked_roundtrip(pieces.drop_first(), exts.drop_first(), last_ext, trailer);
        assert(0 < pieces[0].len() <= usize::MAX && skippable_ext(exts[0]));
        lemma_decode_chunk(
            pieces[0],
            exts[0],
            aws_chunked(pieces.drop_first(), exts.drop_first(), last_ext, trailer),
        );
    }
}

} // verus!
