//! What the S3 handlers do with a request: `bucket_handler` and `object_handler`'s decisions.

use vstd::prelude::*;
use crate::ext::{ext_mime, mime_for_ext};
use crate::query::{lookup, parse_query, parse_query_spec, percent_decode_path, percent_decode_path_spec};
use crate::text::{
    chars_of, lemma_rfind_char, rfind_char, rfind_char_exec, split, split_exec, string_of_range,
    trim_char, trim_char_exec, views,
};

verus! {

/// The HTTP methods that the gateway tells apart.
#[derive(Debug, Clone, Copy, PartialEq, Eq, Structural)]
pub enum Method {
    Get,
    Head,
    Put,
    Delete,
    Other,
}

/// What `bucket_handler` answers.
#[derive(Debug, PartialEq, Eq)]
pub enum BucketAction {
    /// `404 NoSuchBucket`.
    NoSuchBucket,
    /// The location XML.
    Location,
    /// `ListObjects` with this raw query.
    List(String),
    /// An empty `200`.
    Empty,
    /// `405 MethodNotAllowed`.
    MethodNotAllowed,
}

/// `bucket_handler`: another bucket is not found; `GET ?location` answers the location; `GET`
/// lists with the query; `HEAD` and `PUT` answer `200`; other methods are refused.
pub fn bucket_action(bucket: &str, served: &str, method: Method, raw_query: Option<&str>) -> (res:
    BucketAction)
    ensures
        bucket@ != served@ ==> res == BucketAction::NoSuchBucket,
        bucket@ == served@ ==> {
            let q = match raw_query {
                Some(r) => r@,
                None => Seq::<char>::empty(),
            };
            if method == Method::Get && lookup(parse_query_spec(q), "location"@) is Some {
                res == BucketAction::Location
            } else if method == Method::Get {
                res matches BucketAction::List(l) && l@ == q
            } else if method == Method::Head || method == Method::Put {
                res == BucketAction::Empty
            } else {
                res == BucketAction::MethodNotAllowed
            }
        },
{
    if bucket.to_owned() != served.to_owned() {
        return BucketAction::NoSuchBucket;
    }
    let q = match raw_query {
        Some(r) => r.to_owned(),
        None => String::new(),
    };
    if method == Method::Get && parse_query(q.as_str()).contains_key("location") {
        return BucketAction::Location;
    }
    match method {
        Method::Get => BucketAction::List(q),
        Method::Head | Method::Put => BucketAction::Empty,
        _ => BucketAction::MethodNotAllowed,
    }
}

/// What `object_handler` does.
#[derive(Debug, PartialEq, Eq)]
pub enum ObjectAction {
    NoSuchBucket,
    /// List the bucket's root (a `GET` of an empty key).
    ListRoot,
    /// An empty `200`.
    Empty,
    MethodNotAllowed,
    Get(String),
    Head(String),
    Put(String),
    Delete(String),
}

/// `object_handler`: another bucket is not found; the key is percent-decoded segment by
/// segment; an empty key is the bucket itself; otherwise the method decides.
pub fn object_action(bucket: &str, served: &str, raw_key: &str, method: Method) -> (res: ObjectAction)
    ensures
        bucket@ != served@ ==> res == ObjectAction::NoSuchBucket,
        bucket@ == served@ ==> {
            let key = percent_decode_path_spec(raw_key@);
            if trim_char(key, '/').len() == 0 {
                match method {
                    Method::Get => res == ObjectAction::ListRoot,
                    Method::Head | Method::Put => res == ObjectAction::Empty,
                    _ => res == ObjectAction::MethodNotAllowed,
                }
            } else {
                match method {
                    Method::Get => res matches ObjectAction::Get(k) && k@ == key,
                    Method::Head => res matches ObjectAction::Head(k) && k@ == key,
                    Method::Put => res matches ObjectAction::Put(k) && k@ == key,
                    Method::Delete => res matches ObjectAction::Delete(k) && k@ == key,
                    Method::Other => res == ObjectAction::MethodNotAllowed,
                }
            }
        },
{
    if bucket.to_owned() != served.to_owned() {
        return ObjectAction::NoSuchBucket;
    }
    let key = percent_decode_path(raw_key);
    let t = trim_char_exec(key.as_str(), '/');
    if t.as_str().is_empty() {
        return match method {
            Method::Get => ObjectAction::ListRoot,
            Method::Head | Method::Put => ObjectAction::Empty,
            _ => ObjectAction::MethodNotAllowed,
        };
    }
    match method {
        Method::Get => ObjectAction::Get(key),
        Method::Head => ObjectAction::Head(key),
        Method::Put => ObjectAction::Put(key),
        Method::Delete => ObjectAction::Delete(key),
        Method::Other => ObjectAction::MethodNotAllowed,
    }
}

/// The last piece among `pieces` that names something: neither empty nor `.`.
pub open spec fn last_named(pieces: Seq<Seq<char>>) -> Option<Seq<char>>
    decreases pieces.len(),
{
    if pieces.len() == 0 {
        None
    } else if pieces.last().len() == 0 || pieces.last() == seq!['.'] {
        last_named(pieces.drop_last())
    } else {
        Some(pieces.last())
    }
}

/// `Path::file_name` with `/` as the only separator: the path's last component when it is a
/// name (not `..`, and not a root or `.` alone).
pub open spec fn file_name_of(path: Seq<char>) -> Option<Seq<char>> {
    match last_named(split(path, '/')) {
        Some(n) => if n == seq!['.', '.'] {
            None
        } else {
            Some(n)
        },
        None => None,
    }
}

/// `Path::extension` with `/` as the only separator: what follows the last `.` of the file name,
/// unless the name has no `.` or its only `.` opens it.
pub open spec fn extension_of(path: Seq<char>) -> Option<Seq<char>> {
    match file_name_of(path) {
        Some(n) => match rfind_char(n, '.') {
            Some(i) => if i > 0 {
                Some(n.skip(i + 1))
            } else {
                None
            },
            None => None,
        },
        None => None,
    }
}

/// The extension that `mime_guess::from_path` looks up: the path's extension, or none (the empty
/// one, which has no mapping).
pub open spec fn guess_ext(path: Seq<char>) -> Seq<char> {
    match extension_of(path) {
        Some(e) => e,
        None => Seq::empty(),
    }
}

fn is_unnamed(piece: &String) -> (res: bool)
    ensures
        res == (piece@.len() == 0 || piece@ == seq!['.']),
{
    let cs = chars_of(piece.as_str());
    proof {
        if cs@.len() == 1 && cs@[0] == '.' {
            assert(cs@ =~= seq!['.']);
        }
    }
    cs.len() == 0 || (cs.len() == 1 && cs[0] == '.')
}

/// The file extension of `path`, as `extension_of` states it.
pub fn path_extension(path: &str) -> (res: Option<String>)
    ensures
        match res {
            Some(e) => extension_of(path@) == Some(e@),
            None => extension_of(path@) is None,
        },
{
    let pieces = split_exec(path, '/');
    let ghost v = views(pieces@);
    let mut i: usize = pieces.len();
    assert(v.take(i as int) =~= v);
    loop
        invariant
            i <= pieces.len(),
            v == views(pieces@),
            last_named(v.take(i as int)) == last_named(v),
        ensures
            i <= pieces.len(),
            last_named(v.take(i as int)) == last_named(v),
            i > 0 ==> !(pieces@[i - 1]@.len() == 0 || pieces@[i - 1]@ == seq!['.']),
        decreases i,
    {
        if i == 0 {
            break;
        }
        assert(v.take(i as int).last() == pieces@[i - 1]@);
        if !is_unnamed(&pieces[i - 1]) {
            break;
        }
        assert(v.take(i as int).drop_last() =~= v.take(i - 1));
        i -= 1;
    }
    if i == 0 {
        return None;
    }
    let name = chars_of(pieces[i - 1].as_str());
    assert(v.take(i as int).last() == pieces@[i - 1]@);
    assert(last_named(v) == Some(name@));
    if name.len() == 2 && name[0] == '.' && name[1] == '.' {
        assert(name@ =~= seq!['.', '.']);
        return None;
    }
    assert(name@ != seq!['.', '.']) by {
        if name@ == seq!['.', '.'] {
            assert(name@.len() == 2 && name@[0] == '.' && name@[1] == '.');
        }
    }
    proof {
        lemma_rfind_char(name@, '.');
    }
    match rfind_char_exec(&name, '.') {
        Some(j) => if j > 0 {
            Some(string_of_range(&name, j + 1, name.len()))
        } else {
            None
        },
        None => None,
    }
}

/// The content type that a `PUT` stores: the request's `Content-Type`, else the type that
/// `mime_guess` keeps for the key's extension.
pub fn put_content_type(header: Option<&str>, key: &str) -> (res: String)
    ensures
        res@ == (match header {
            Some(h) => h@,
            None => ext_mime(guess_ext(key@)),
        }),
{
    match header {
        Some(h) => h.to_owned(),
        None => {
            let ext = match path_extension(key) {
                Some(e) => e,
                None => String::new(),
            };
            mime_for_ext(ext.as_str())
        },
    }
}

} // verus!
