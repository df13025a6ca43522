//! The XML bodies of S3 responses.

use vstd::prelude::*;
use crate::text::{append, string_push};
use crate::num::{decimal, decimal_int, push_u64, push_i64};
use crate::quark::QuarkFile;
use crate::ext::rfc3339_utc;
use crate::text::views;
use crate::times::{iso_time, iso_time_ok, secs_of};
use crate::listing::{entry_views, ListParams};

verus! {

/// The escape of one character: `&`, `<`, `>`, `"` and `'` become entities.
pub open spec fn escape_char(c: char) -> Seq<char> {
    if c == '&' {
        "&amp;"@
    } else if c == '<' {
        "&lt;"@
    } else if c == '>' {
        "&gt;"@
    } else if c == '"' {
        "&quot;"@
    } else if c == '\'' {
        "&apos;"@
    } else {
        seq![c]
    }
}

/// `s` with each character escaped.
pub open spec fn escape(s: Seq<char>) -> Seq<char>
    decreases s.len(),
{
    if s.len() == 0 {
        Seq::empty()
    } else {
        escape(s.drop_last()) + escape_char(s.last())
    }
}

/// Appends the escape of `s` to `out`.
pub fn push_escaped(out: &mut String, s: &str)
    ensures
        final(out)@ == old(out)@ + escape(s@),
{
    let ghost start = out@;
    for c in it: s.chars()
        invariant
            it.seq() == s@,
            out@ == start + escape(it.seq().take(it.index() as int)),
    {
        let ghost before = out@;
        if c == '&' {
            append(out, "&amp;");
        } else if c == '<' {
            append(out, "&lt;");
        } else if c == '>' {
            append(out, "&gt;");
        } else if c == '"' {
            append(out, "&quot;");
        } else if c == '\'' {
            append(out, "&apos;");
        } else {
            string_push(out, c);
        }
        proof {
            let t = it.seq().take(it.index() + 1);
            assert(t.drop_last() == it.seq().take(it.index() as int));
            assert(out@ =~= start + escape(t));
        }
    }
    assert(s@.take(s@.len() as int) == s@);
}

/// `xml_escape`: `&`, `<`, `>`, `"` and `'` replaced by their entities, every other character
/// kept.
pub fn xml_escape(s: &str) -> (res: String)
    ensures
        res@ == escape(s@),
{
    let mut out = String::new();
    push_escaped(&mut out, s);
    assert(out@ =~= escape(s@));
    out
}

/// An escaped text holds none of `<`, `>`, `"` and `'`, so it cannot close a tag or an attribute.
pub proof fn law_escape_has_no_markup(s: Seq<char>)
    ensures
        forall|i: int|
            0 <= i < escape(s).len() ==> #[trigger] escape(s)[i] != '<' && escape(s)[i] != '>'
                && escape(s)[i] != '"' && escape(s)[i] != '\'',
    decreases s.len(),
{
    if s.len() > 0 {
        law_escape_has_no_markup(s.drop_last());
        let a = escape(s.drop_last());
        let b = escape_char(s.last());
        reveal_strlit("&amp;");
        reveal_strlit("&lt;");
        reveal_strlit("&gt;");
        reveal_strlit("&quot;");
        reveal_strlit("&apos;");
        assert forall|i: int| 0 <= i < escape(s).len() implies #[trigger] escape(s)[i] != '<'
            && escape(s)[i] != '>' && escape(s)[i] != '"' && escape(s)[i] != '\'' by {
            if i >= a.len() {
                assert(escape(s)[i] == b[i - a.len()]);
            } else {
                assert(escape(s)[i] == a[i]);
            }
        }
    }
}

/// The body of `ListAllMyBuckets`: the one bucket.
pub open spec fn buckets_xml(bucket: Seq<char>) -> Seq<char> {
    "<?xml version=\"1.0\" encoding=\"UTF-8\"?>\n<ListAllMyBucketsResult xmlns=\"http://s3.amazonaws.com/doc/2006-03-01/\">\n  <Buckets><Bucket><Name>"@
        + escape(bucket) + "</Name></Bucket></Buckets>\n</ListAllMyBucketsResult>"@
}

/// The body that `root_handler` answers.
pub fn list_buckets_xml(bucket: &str) -> (res: String)
    ensures
        res@ == buckets_xml(bucket@),
{
    let mut out = String::new();
    append(
        &mut out,
        "<?xml version=\"1.0\" encoding=\"UTF-8\"?>\n<ListAllMyBucketsResult xmlns=\"http://s3.amazonaws.com/doc/2006-03-01/\">\n  <Buckets><Bucket><Name>",
    );
    push_escaped(&mut out, bucket);
    append(&mut out, "</Name></Bucket></Buckets>\n</ListAllMyBucketsResult>");
    assert(out@ =~= buckets_xml(bucket@));
    out
}

/// The body of `GetBucketLocation`.
pub open spec fn location_xml_spec() -> Seq<char> {
    "<?xml version=\"1.0\" encoding=\"UTF-8\"?>\n<LocationConstraint xmlns=\"http://s3.amazonaws.com/doc/2006-03-01/\">us-east-1</LocationConstraint>"@
}

pub fn location_xml() -> (res: String)
    ensures
        res@ == location_xml_spec(),
{
    let mut out = String::new();
    append(
        &mut out,
        "<?xml version=\"1.0\" encoding=\"UTF-8\"?>\n<LocationConstraint xmlns=\"http://s3.amazonaws.com/doc/2006-03-01/\">us-east-1</LocationConstraint>",
    );
    assert(out@ =~= location_xml_spec());
    out
}

/// The body of an S3 error.
pub open spec fn error_xml(code: Seq<char>, message: Seq<char>) -> Seq<char> {
    "<?xml version=\"1.0\" encoding=\"UTF-8\"?><Error><Code>"@ + escape(code)
        + "</Code><Message>"@ + escape(message) + "</Message></Error>"@
}

/// The body of `s3_error`.
pub fn s3_error_xml(code: &str, message: &str) -> (res: String)
    ensures
        res@ == error_xml(code@, message@),
{
    let mut out = String::new();
    append(&mut out, "<?xml version=\"1.0\" encoding=\"UTF-8\"?><Error><Code>");
    push_escaped(&mut out, code);
    append(&mut out, "</Code><Message>");
    push_escaped(&mut out, message);
    append(&mut out, "</Message></Error>");
    assert(out@ =~= error_xml(code@, message@));
    out
}

pub open spec fn bool_text(b: bool) -> Seq<char> {
    if b {
        "true"@
    } else {
        "false"@
    }
}

/// The later of a file's two times, the one that listings and headers show.
pub open spec fn modified_at(f: QuarkFile) -> i64 {
    if f.updated_at >= f.created_at {
        f.updated_at
    } else {
        f.created_at
    }
}

pub fn modified_at_exec(f: &QuarkFile) -> (res: i64)
    ensures
        res == modified_at(*f),
{
    if f.updated_at >= f.created_at {
        f.updated_at
    } else {
        f.created_at
    }
}

/// One `<Contents>` line.
pub open spec fn contents_line(key: Seq<char>, f: QuarkFile) -> Seq<char> {
    "  <Contents><Key>"@ + escape(key) + "</Key><LastModified>"@ + rfc3339_utc(
        secs_of(modified_at(f)),
    ) + "</LastModified><Size>"@ + decimal_int(f.size as int)
        + "</Size><StorageClass>STANDARD</StorageClass></Contents>\n"@
}

pub open spec fn contents_lines(objects: Seq<(Seq<char>, QuarkFile)>) -> Seq<char>
    decreases objects.len(),
{
    if objects.len() == 0 {
        Seq::empty()
    } else {
        contents_lines(objects.drop_last()) + contents_line(objects.last().0, objects.last().1)
    }
}

pub open spec fn prefix_lines(prefixes: Seq<Seq<char>>) -> Seq<char>
    decreases prefixes.len(),
{
    if prefixes.len() == 0 {
        Seq::empty()
    } else {
        prefix_lines(prefixes.drop_last()) + "  <CommonPrefixes><Prefix>"@ + escape(prefixes.last())
            + "</Prefix></CommonPrefixes>\n"@
    }
}

pub open spec fn token_lines(next_token: Option<usize>) -> Seq<char> {
    match next_token {
        Some(t) => "  <NextContinuationToken>"@ + decimal(t as nat) + "</NextContinuationToken>\n"@
            + "  <NextMarker>"@ + decimal(t as nat) + "</NextMarker>\n"@,
        None => Seq::empty(),
    }
}

pub open spec fn delimiter_line(delimiter: Option<Seq<char>>) -> Seq<char> {
    match delimiter {
        Some(d) => "  <Delimiter>"@ + escape(d) + "</Delimiter>\n"@,
        None => Seq::empty(),
    }
}

/// The body of `ListObjects`.
pub open spec fn list_xml_spec(
    bucket: Seq<char>,
    prefix: Seq<char>,
    delimiter: Option<Seq<char>>,
    max_keys: usize,
    next_token: Option<usize>,
    objects: Seq<(Seq<char>, QuarkFile)>,
    prefixes: Seq<Seq<char>>,
) -> Seq<char> {
    "<?xml version=\"1.0\" encoding=\"UTF-8\"?>\n<ListBucketResult xmlns=\"http://s3.amazonaws.com/doc/2006-03-01/\">\n  <Name>"@
        + escape(bucket) + "</Name>\n  <Prefix>"@ + escape(prefix) + "</Prefix>\n  <KeyCount>"@
        + decimal(objects.len() + prefixes.len()) + "</KeyCount>\n  <MaxKeys>"@ + decimal(
        max_keys as nat,
    ) + "</MaxKeys>\n  <IsTruncated>"@ + bool_text(next_token is Some) + "</IsTruncated>\n"@
        + token_lines(next_token) + delimiter_line(delimiter) + contents_lines(objects)
        + prefix_lines(prefixes) + "</ListBucketResult>"@
}

/// Every listed file has a time that `iso_time` can write.
pub open spec fn times_writable(objects: Seq<(Seq<char>, QuarkFile)>) -> bool {
    forall|i: int| 0 <= i < objects.len() ==> iso_time_ok(modified_at(#[trigger] objects[i].1))
}

/// Whether every listed file has a time that `iso_time` can write.
pub fn times_writable_exec(objects: &Vec<(String, QuarkFile)>) -> (res: bool)
    ensures
        res == times_writable(entry_views(objects@)),
{
    let mut i: usize = 0;
    while i < objects.len()
        invariant
            i <= objects.len(),
            forall|j: int| 0 <= j < i ==> iso_time_ok(modified_at(#[trigger] entry_views(objects@)[j].1)),
        decreases objects.len() - i,
    {
        let m = modified_at_exec(&objects[i].1);
        if m >= 0 && m / 1000 >= 8210266876800 {
            assert(!iso_time_ok(modified_at(entry_views(objects@)[i as int].1)));
            return false;
        }
        i += 1;
    }
    true
}

/// `list_xml`: the `ListObjects` body for one page.
pub fn list_xml(
    bucket: &str,
    prefix: &str,
    delimiter: Option<&str>,
    max_keys: usize,
    next_token: Option<usize>,
    objects: &Vec<(String, QuarkFile)>,
    common_prefixes: &Vec<String>,
) -> (res: String)
    requires
        times_writable(entry_views(objects@)),
        objects.len() + common_prefixes.len() <= usize::MAX,
    ensures
        res@ == list_xml_spec(
            bucket@,
            prefix@,
            match delimiter {
                Some(d) => Some(d@),
                None => None,
            },
            max_keys,
            next_token,
            entry_views(objects@),
            views(common_prefixes@),
        ),
{
    let mut out = String::new();
    append(
        &mut out,
        "<?xml version=\"1.0\" encoding=\"UTF-8\"?>\n<ListBucketResult xmlns=\"http://s3.amazonaws.com/doc/2006-03-01/\">\n  <Name>",
    );
    push_escaped(&mut out, bucket);
    append(&mut out, "</Name>\n  <Prefix>");
    push_escaped(&mut out, prefix);
    append(&mut out, "</Prefix>\n  <KeyCount>");
    let total: usize = objects.len() + common_prefixes.len();
    push_u64(&mut out, total as u64);
    append(&mut out, "</KeyCount>\n  <MaxKeys>");
    push_u64(&mut out, max_keys as u64);
    append(&mut out, "</MaxKeys>\n  <IsTruncated>");
    if next_token.is_some() {
        append(&mut out, "true");
    } else {
        append(&mut out, "false");
    }
    append(&mut out, "</IsTruncated>\n");
    let ghost head = out@;
    if let Some(t) = next_token {
        append(&mut out, "  <NextContinuationToken>");
        push_u64(&mut out, t as u64);
        append(&mut out, "</NextContinuationToken>\n");
        append(&mut out, "  <NextMarker>");
        push_u64(&mut out, t as u64);
        append(&mut out, "</NextMarker>\n");
    }
    assert(out@ =~= head + token_lines(next_token));
    let ghost head = out@;
    let ghost dv = match delimiter {
        Some(d) => Some(d@),
        None => None,
    };
    if let Some(d) = delimiter {
        append(&mut out, "  <Delimiter>");
        push_escaped(&mut out, d);
        append(&mut out, "</Delimiter>\n");
    }
    assert(out@ =~= head + delimiter_line(dv));
    let ghost head = out@;
    let mut i: usize = 0;
    assert(entry_views(objects@).take(0) =~= Seq::<(Seq<char>, QuarkFile)>::empty());
    while i < objects.len()
        invariant
            i <= objects.len(),
            times_writable(entry_views(objects@)),
            out@ == head + contents_lines(entry_views(objects@).take(i as int)),
        decreases objects.len() - i,
    {
        let ghost t = entry_views(objects@).take(i + 1);
        assert(t.drop_last() == entry_views(objects@).take(i as int));
        assert(t.last() == (objects@[i as int].0@, objects@[i as int].1));
        assert(iso_time_ok(modified_at(entry_views(objects@)[i as int].1)));
        let ghost before = out@;
        append(&mut out, "  <Contents><Key>");
        push_escaped(&mut out, objects[i].0.as_str());
        append(&mut out, "</Key><LastModified>");
        let when = iso_time(modified_at_exec(&objects[i].1));
        append(&mut out, when.as_str());
        append(&mut out, "</LastModified><Size>");
        push_i64(&mut out, objects[i].1.size);
        append(&mut out, "</Size><StorageClass>STANDARD</StorageClass></Contents>\n");
        i += 1;
        assert(out@ =~= before + contents_line(t.last().0, t.last().1));
    }
    assert(entry_views(objects@).take(objects.len() as int) == entry_views(objects@));
    let ghost head = out@;
    let mut i: usize = 0;
    assert(views(common_prefixes@).take(0) =~= Seq::<Seq<char>>::empty());
    while i < common_prefixes.len()
        invariant
            i <= common_prefixes.len(),
            out@ == head + prefix_lines(views(common_prefixes@).take(i as int)),
        decreases common_prefixes.len() - i,
    {
        let ghost t = views(common_prefixes@).take(i + 1);
        assert(t.drop_last() == views(common_prefixes@).take(i as int));
        assert(t.last() == common_prefixes@[i as int]@);
        append(&mut out, "  <CommonPrefixes><Prefix>");
        push_escaped(&mut out, common_prefixes[i].as_str());
        append(&mut out, "</Prefix></CommonPrefixes>\n");
        i += 1;
        assert(out@ =~= head + prefix_lines(views(common_prefixes@).take(i as int)));
    }
    assert(views(common_prefixes@).take(common_prefixes.len() as int) == views(common_prefixes@));
    append(&mut out, "</ListBucketResult>");
    assert(out@ =~= list_xml_spec(
        bucket@,
        prefix@,
        dv,
        max_keys,
        next_token,
        entry_views(objects@),
        views(common_prefixes@),
    ));
    out
}


/// `list_objects`' answer when the folder of the prefix does not resolve: a page with nothing
/// on it, for the request's prefix, delimiter and page size.
pub fn missing_folder_list_xml(bucket: &str, params: &ListParams) -> (res: String)
    ensures
        res@ == list_xml_spec(
            bucket@,
            params.prefix@,
            match params.delimiter {
                Some(d) => Some(d@),
                None => None,
            },
            params.max_keys,
            None,
            Seq::empty(),
            Seq::empty(),
        ),
{
    let objects: Vec<(String, QuarkFile)> = Vec::new();
    let prefixes: Vec<String> = Vec::new();
    assert(entry_views(objects@) =~= Seq::<(Seq<char>, QuarkFile)>::empty());
    assert(views(prefixes@) =~= Seq::<Seq<char>>::empty());
    let delimiter: Option<&str> = match &params.delimiter {
        Some(d) => Some(d.as_str()),
        None => None,
    };
    list_xml(bucket, params.prefix.as_str(), delimiter, params.max_keys, None, &objects, &prefixes)
}

} // verus!
