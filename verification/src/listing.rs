//! `ListObjects`: the request's parameters, the walk over Quark folders, the order of keys and the
//! pages.

use vstd::prelude::*;
use vstd::multiset::Multiset;
use crate::quark::QuarkFile;
use crate::text::{chars_of, views};
use crate::query::{Query, lookup};
use crate::text::{trim_end_char, trim_end_char_exec, trim_char, trim_char_exec, append, string_push};
use crate::num::{parse_usize, parse_usize_exec};

verus! {

/// `a < b` in the order of `String`: lexicographic over the characters' code points (UTF-8
/// keeps that order, so it is also the order of the bytes).
pub open spec fn lex_lt(a: Seq<char>, b: Seq<char>) -> bool
    decreases a.len(),
{
    if a.len() == 0 {
        b.len() > 0
    } else if b.len() == 0 {
        false
    } else if a[0] != b[0] {
        a[0] < b[0]
    } else {
        lex_lt(a.drop_first(), b.drop_first())
    }
}

/// Whether `a < b` as strings.
pub fn str_lt(a: &str, b: &str) -> (res: bool)
    ensures
        res == lex_lt(a@, b@),
{
    let ac = chars_of(a);
    let bc = chars_of(b);
    let mut i: usize = 0;
    assert(a@.skip(0) == a@);
    assert(b@.skip(0) == b@);
    while i < ac.len() && i < bc.len() && ac[i] == bc[i]
        invariant
            i <= ac.len(),
            i <= bc.len(),
            lex_lt(a@, b@) == lex_lt(a@.skip(i as int), b@.skip(i as int)),
            ac@ == a@,
            bc@ == b@,
        decreases ac.len() - i,
    {
        assert(a@.skip(i as int).drop_first() == a@.skip(i + 1));
        assert(b@.skip(i as int).drop_first() == b@.skip(i + 1));
        i += 1;
    }
    if i < ac.len() {
        assert(a@.skip(i as int)[0] == a@[i as int]);
    }
    if i < bc.len() {
        assert(b@.skip(i as int)[0] == b@[i as int]);
    }
    if i == ac.len() {
        i < bc.len()
    } else if i == bc.len() {
        false
    } else {
        ac[i] < bc[i]
    }
}

/// The keys of entries.
pub open spec fn keys<T>(s: Seq<(Seq<char>, T)>) -> Seq<Seq<char>> {
    s.map_values(|e: (Seq<char>, T)| e.0)
}

/// Where a stable insertion puts the key `k` among `ks`: before the first key greater than `k`.
pub open spec fn insert_index(ks: Seq<Seq<char>>, k: Seq<char>) -> int
    decreases ks.len(),
{
    if ks.len() == 0 {
        0
    } else if lex_lt(k, ks[0]) {
        0
    } else {
        1 + insert_index(ks.drop_first(), k)
    }
}

/// `s` stably sorted by key, as `sort_by(|a, b| a.0.cmp(&b.0))` leaves it.
pub open spec fn sort_by_key<T>(s: Seq<(Seq<char>, T)>) -> Seq<(Seq<char>, T)>
    decreases s.len(),
{
    if s.len() == 0 {
        s
    } else {
        let r = sort_by_key(s.drop_last());
        r.insert(insert_index(keys(r), s.last().0), s.last())
    }
}

pub open spec fn entry_views(v: Seq<(String, QuarkFile)>) -> Seq<(Seq<char>, QuarkFile)> {
    v.map_values(|e: (String, QuarkFile)| (e.0@, e.1))
}

proof fn lemma_insert_index_bounds(ks: Seq<Seq<char>>, k: Seq<char>)
    ensures
        0 <= insert_index(ks, k) <= ks.len(),
        forall|j: int| 0 <= j < insert_index(ks, k) ==> !lex_lt(k, #[trigger] ks[j]),
        insert_index(ks, k) < ks.len() ==> lex_lt(k, ks[insert_index(ks, k)]),
    decreases ks.len(),
{
    if ks.len() > 0 && !lex_lt(k, ks[0]) {
        lemma_insert_index_bounds(ks.drop_first(), k);
        assert forall|j: int| 0 <= j < insert_index(ks, k) implies !lex_lt(k, #[trigger] ks[j]) by {
            if j > 0 {
                assert(ks[j] == ks.drop_first()[j - 1]);
            }
        }
    }
}

proof fn lemma_insert_index_unique(ks: Seq<Seq<char>>, k: Seq<char>, i: int)
    requires
        0 <= i <= ks.len(),
        forall|j: int| 0 <= j < i ==> !lex_lt(k, #[trigger] ks[j]),
        i < ks.len() ==> lex_lt(k, ks[i]),
    ensures
        insert_index(ks, k) == i,
    decreases ks.len(),
{
    if ks.len() > 0 && i > 0 {
        assert(!lex_lt(k, ks[0]));
        assert forall|j: int| 0 <= j < i - 1 implies !lex_lt(k, #[trigger] ks.drop_first()[j]) by {
            assert(ks.drop_first()[j] == ks[j + 1]);
        }
        lemma_insert_index_unique(ks.drop_first(), k, i - 1);
    }
}

/// `entries` sorted by key, stably (`sort_by` on the key).
pub fn sort_entries(entries: &Vec<(String, QuarkFile)>) -> (res: Vec<(String, QuarkFile)>)
    ensures
        entry_views(res@) == sort_by_key(entry_views(entries@)),
{
    let mut sorted: Vec<(String, QuarkFile)> = Vec::new();
    let mut i: usize = 0;
    assert(entry_views(entries@).take(0) =~= Seq::<(Seq<char>, QuarkFile)>::empty());
    assert(entry_views(sorted@) =~= Seq::<(Seq<char>, QuarkFile)>::empty());
    while i < entries.len()
        invariant
            i <= entries.len(),
            entry_views(sorted@) == sort_by_key(entry_views(entries@).take(i as int)),
        decreases entries.len() - i,
    {
        let ghost s = entry_views(entries@).take(i + 1);
        assert(s.drop_last() == entry_views(entries@).take(i as int));
        assert(s.last() == (entries@[i as int].0@, entries@[i as int].1));
        let key = entries[i].0.clone();
        let file = entries[i].1.clone();
        let ghost ks = keys(entry_views(sorted@));
        let mut j: usize = 0;
        while j < sorted.len() && !str_lt(key.as_str(), sorted[j].0.as_str())
            invariant
                j <= sorted.len(),
                ks == keys(entry_views(sorted@)),
                forall|m: int| 0 <= m < j ==> !lex_lt(key@, #[trigger] ks[m]),
            decreases sorted.len() - j,
        {
            assert(ks[j as int] == sorted@[j as int].0@);
            j += 1;
        }
        proof {
            if j < sorted.len() {
                assert(ks[j as int] == sorted@[j as int].0@);
            }
            lemma_insert_index_unique(ks, key@, j as int);
        }
        let ghost before = sorted@;
        sorted.insert(j, (key, file));
        i += 1;
        assert(entry_views(sorted@) =~= entry_views(before).insert(j as int, (key@, file)));
    }
    assert(entry_views(entries@).take(entries.len() as int) == entry_views(entries@));
    sorted
}

pub open spec fn slash() -> Seq<char> {
    seq!['/']
}

/// What a `ListObjects` request asks, read from its query.
pub struct ListParams {
    pub prefix: String,
    pub delimiter: Option<String>,
    pub max_keys: usize,
    /// Index of the first entry of the page (`continuation-token`, else `marker`).
    pub offset: usize,
    /// The folder to list: the prefix, without trailing `/` when the delimiter is `/`.
    pub dir_path: String,
    /// Whether subfolders are listed too (no `/` delimiter).
    pub recursive: bool,
}

pub open spec fn key_prefix() -> Seq<char> {
    seq!['p', 'r', 'e', 'f', 'i', 'x']
}

pub open spec fn key_delimiter() -> Seq<char> {
    seq!['d', 'e', 'l', 'i', 'm', 'i', 't', 'e', 'r']
}

pub open spec fn key_max_keys() -> Seq<char> {
    seq!['m', 'a', 'x', '-', 'k', 'e', 'y', 's']
}

pub open spec fn key_token() -> Seq<char> {
    seq!['c', 'o', 'n', 't', 'i', 'n', 'u', 'a', 't', 'i', 'o', 'n', '-', 't', 'o', 'k', 'e', 'n']
}

pub open spec fn key_marker() -> Seq<char> {
    seq!['m', 'a', 'r', 'k', 'e', 'r']
}

/// A number read from an optional text, `default` when absent or not a number.
pub open spec fn number_or(t: Option<Seq<char>>, default: usize) -> usize {
    match t {
        Some(s) => match parse_usize(s, 10) {
            Some(n) => n,
            None => default,
        },
        None => default,
    }
}

/// The parameters that `list_objects` reads from the query pairs `q`.
pub open spec fn params_of(q: Seq<(Seq<char>, Seq<char>)>, p: ListParams) -> bool {
    let prefix = match lookup(q, key_prefix()) {
        Some(v) => v,
        None => Seq::empty(),
    };
    let delimiter = lookup(q, key_delimiter());
    let m = number_or(lookup(q, key_max_keys()), 1000);
    let slash_delim = delimiter == Some(slash());
    &&& p.prefix@ == prefix
    &&& match p.delimiter {
        Some(d) => delimiter == Some(d@),
        None => delimiter is None,
    }
    &&& p.max_keys == (if m < 1 {
        1
    } else {
        m
    })
    &&& p.offset == (match lookup(q, key_token()) {
        Some(t) => number_or(Some(t), 0),
        None => number_or(lookup(q, key_marker()), 0),
    })
    &&& p.dir_path@ == (if slash_delim {
        trim_end_char(prefix, '/')
    } else {
        prefix
    })
    &&& p.recursive == !slash_delim
}

fn number_or_exec(t: Option<String>, default: usize) -> (res: usize)
    ensures
        res == number_or(
            match t {
                Some(s) => Some(s@),
                None => None,
            },
            default,
        ),
{
    match t {
        Some(s) => match parse_usize_exec(s.as_str()) {
            Some(n) => n,
            None => default,
        },
        None => default,
    }
}

/// The `ListObjects` parameters of the query `q` (first half of `list_objects`).
pub fn list_params(q: &Query) -> (res: ListParams)
    ensures
        params_of(q.pairs_view(), res),
        res.max_keys >= 1,
{
    proof {
        reveal_strlit("prefix");
        reveal_strlit("delimiter");
        reveal_strlit("max-keys");
        reveal_strlit("continuation-token");
        reveal_strlit("marker");
        reveal_strlit("/");
        assert("prefix"@ =~= key_prefix());
        assert("delimiter"@ =~= key_delimiter());
        assert("max-keys"@ =~= key_max_keys());
        assert("continuation-token"@ =~= key_token());
        assert("marker"@ =~= key_marker());
        assert("/"@ =~= slash());
    }
    let prefix = match q.get("prefix") {
        Some(v) => v,
        None => String::new(),
    };
    let delimiter = q.get("delimiter");
    let m = number_or_exec(q.get("max-keys"), 1000);
    let max_keys = if m < 1 {
        1
    } else {
        m
    };
    let offset = match q.get("continuation-token") {
        Some(t) => number_or_exec(Some(t), 0),
        None => number_or_exec(q.get("marker"), 0),
    };
    let slash_delim = match &delimiter {
        Some(d) => *d == "/".to_owned(),
        None => false,
    };
    let dir_path = if slash_delim {
        trim_end_char_exec(prefix.as_str(), '/')
    } else {
        prefix.clone()
    };
    ListParams { prefix, delimiter, max_keys, offset, dir_path, recursive: !slash_delim }
}

/// The folders still to list (Quark folder id, key prefix of its entries) and the entries found.
pub struct Walk {
    pub stack: Vec<(String, String)>,
    pub out: Vec<(String, QuarkFile)>,
    pub recursive: bool,
}

pub open spec fn pair_views(v: Seq<(String, String)>) -> Seq<(Seq<char>, Seq<char>)> {
    v.map_values(|e: (String, String)| (e.0@, e.1@))
}

/// The key prefix of the entries of the listed folder `dir_path`: empty for the root, else the
/// path without surrounding `/` and with one `/` after it.
pub open spec fn base_prefix(dir_path: Seq<char>) -> Seq<char> {
    if dir_path.len() == 0 {
        Seq::empty()
    } else {
        trim_char(dir_path, '/').push('/')
    }
}

/// The walk after one folder's listing `files` under `base`: each entry gets the key
/// `base + name`; in a recursive walk a folder is queued with `key + "/"`, otherwise every entry
/// is found.
pub open spec fn absorb_spec(
    stack: Seq<(Seq<char>, Seq<char>)>,
    out: Seq<(Seq<char>, QuarkFile)>,
    recursive: bool,
    base: Seq<char>,
    files: Seq<QuarkFile>,
) -> (Seq<(Seq<char>, Seq<char>)>, Seq<(Seq<char>, QuarkFile)>)
    decreases files.len(),
{
    if files.len() == 0 {
        (stack, out)
    } else {
        let (s, o) = absorb_spec(stack, out, recursive, base, files.drop_last());
        let f = files.last();
        let key = base + f.file_name@;
        if recursive && !f.file {
            (s.push((f.fid@, key.push('/'))), o)
        } else {
            (s, o.push((key, f)))
        }
    }
}

impl Walk {
    /// The walk of `list_files_for_s3` before any listing: the folder `parent` queued with the
    /// base prefix of `dir_path`.
    pub fn new(parent: &str, dir_path: &str, recursive: bool) -> (res: Walk)
        ensures
            pair_views(res.stack@) == seq![(parent@, base_prefix(dir_path@))],
            res.out@.len() == 0,
            res.recursive == recursive,
    {
        let base = if dir_path.is_empty() {
            String::new()
        } else {
            let mut b = trim_char_exec(dir_path, '/');
            string_push(&mut b, '/');
            b
        };
        let mut stack: Vec<(String, String)> = Vec::new();
        stack.push((parent.to_owned(), base));
        assert(pair_views(stack@) =~= seq![(parent@, base_prefix(dir_path@))]);
        Walk { stack, out: Vec::new(), recursive }
    }

    /// The next folder to list, taken from the top of the stack.
    pub fn next_dir(&mut self) -> (res: Option<(String, String)>)
        ensures
            old(self).stack@.len() == 0 ==> res is None && final(self).stack@ == old(self).stack@,
            old(self).stack@.len() > 0 ==> res == Some(old(self).stack@.last())
                && final(self).stack@ == old(self).stack@.drop_last(),
            final(self).out@ == old(self).out@,
            final(self).recursive == old(self).recursive,
    {
        self.stack.pop()
    }

    /// Takes in the listing `files` of the folder whose key prefix is `base`.
    pub fn absorb(&mut self, base: &str, files: &Vec<QuarkFile>)
        ensures
            (pair_views(final(self).stack@), entry_views(final(self).out@)) == absorb_spec(
                pair_views(old(self).stack@),
                entry_views(old(self).out@),
                old(self).recursive,
                base@,
                files@,
            ),
            final(self).recursive == old(self).recursive,
    {
        let mut i: usize = 0;
        let ghost s0 = pair_views(self.stack@);
        let ghost o0 = entry_views(self.out@);
        assert(files@.take(0) =~= Seq::<QuarkFile>::empty());
        while i < files.len()
            invariant
                i <= files.len(),
                self.recursive == old(self).recursive,
                s0 == pair_views(old(self).stack@),
                o0 == entry_views(old(self).out@),
                (pair_views(self.stack@), entry_views(self.out@)) == absorb_spec(
                    s0,
                    o0,
                    self.recursive,
                    base@,
                    files@.take(i as int),
                ),
            decreases files.len() - i,
        {
            assert(files@.take(i + 1).drop_last() == files@.take(i as int));
            assert(files@.take(i + 1).last() == files@[i as int]);
            let f = &files[i];
            let mut key = base.to_owned();
            append(&mut key, f.file_name.as_str());
            if self.recursive && !f.file {
                let mut sub = key.clone();
                string_push(&mut sub, '/');
                let ghost before = self.stack@;
                self.stack.push((f.fid.clone(), sub));
                assert(pair_views(self.stack@) =~= pair_views(before).push((f.fid@, key@.push('/'))));
            } else {
                let ghost before = self.out@;
                self.out.push((key, f.clone()));
                assert(entry_views(self.out@) =~= entry_views(before).push((key@, files@[i as int])));
            }
            i += 1;
        }
        assert(files@.take(files.len() as int) == files@);
    }

    /// The entries found, sorted by key (end of `list_files_for_s3`).
    pub fn finish(&self) -> (res: Vec<(String, QuarkFile)>)
        ensures
            entry_views(res@) == sort_by_key(entry_views(self.out@)),
    {
        sort_entries(&self.out)
    }
}

/// The entries that are files, in order.
pub open spec fn objects_of(s: Seq<(Seq<char>, QuarkFile)>) -> Seq<(Seq<char>, QuarkFile)>
    decreases s.len(),
{
    if s.len() == 0 {
        Seq::empty()
    } else if s.last().1.file {
        objects_of(s.drop_last()).push(s.last())
    } else {
        objects_of(s.drop_last())
    }
}

/// The keys of the entries that are folders, each with `/` added, in order.
pub open spec fn prefixes_of(s: Seq<(Seq<char>, QuarkFile)>) -> Seq<Seq<char>>
    decreases s.len(),
{
    if s.len() == 0 {
        Seq::empty()
    } else if s.last().1.file {
        prefixes_of(s.drop_last())
    } else {
        prefixes_of(s.drop_last()).push(s.last().0.push('/'))
    }
}

/// A listing splits into its files and its folders and drops nothing: the objects are exactly
/// the entries that are files, in order, whatever their size, and the common prefixes are the
/// keys of exactly the entries that are folders, in order, each with `/` added.
pub proof fn law_partition_keeps_entries(s: Seq<(Seq<char>, QuarkFile)>)
    ensures
        objects_of(s) == s.filter(|e: (Seq<char>, QuarkFile)| e.1.file),
        prefixes_of(s) == s.filter(|e: (Seq<char>, QuarkFile)| !e.1.file).map_values(
            |e: (Seq<char>, QuarkFile)| e.0.push('/'),
        ),
    decreases s.len(),
{
    reveal(Seq::filter);
    if s.len() > 0 {
        law_partition_keeps_entries(s.drop_last());
        let g = s.drop_last().filter(|e: (Seq<char>, QuarkFile)| !e.1.file);
        assert(g.push(s.last()).map_values(|e: (Seq<char>, QuarkFile)| e.0.push('/'))
            =~= g.map_values(|e: (Seq<char>, QuarkFile)| e.0.push('/')).push(s.last().0.push('/')));
    } else {
        assert(s.filter(|e: (Seq<char>, QuarkFile)| !e.1.file).map_values(
            |e: (Seq<char>, QuarkFile)| e.0.push('/'),
        ) =~= Seq::<Seq<char>>::empty());
    }
}

pub open spec fn clamp(x: int, lo: int, hi: int) -> int {
    if x < lo {
        lo
    } else if x > hi {
        hi
    } else {
        x
    }
}

/// One page of a listing.
pub struct ListPage {
    pub objects: Vec<(String, QuarkFile)>,
    pub common_prefixes: Vec<String>,
    /// The offset of the next page, when there is one.
    pub next_token: Option<usize>,
}

/// The page of `entries` that starts at `offset` and holds at most `max_keys` names: the files
/// first, then the folders as common prefixes, counted as one sequence.
pub open spec fn page_of(
    entries: Seq<(Seq<char>, QuarkFile)>,
    offset: int,
    max_keys: int,
    page: ListPage,
) -> bool {
    let objs = objects_of(entries);
    let prefs = prefixes_of(entries);
    let ol = objs.len() as int;
    let pl = prefs.len() as int;
    &&& entry_views(page.objects@) == objs.subrange(clamp(offset, 0, ol), clamp(offset + max_keys, 0, ol))
    &&& views(page.common_prefixes@) == prefs.subrange(
        clamp(offset - ol, 0, pl),
        clamp(offset + max_keys - ol, 0, pl),
    )
    &&& page.next_token == (if offset + max_keys < ol + pl {
        Some((offset + max_keys) as usize)
    } else {
        None
    })
}

/// Splits sorted entries into files and folder prefixes (middle of `list_objects`).
pub fn partition(entries: &Vec<(String, QuarkFile)>) -> (res: (
    Vec<(String, QuarkFile)>,
    Vec<String>,
))
    ensures
        entry_views(res.0@) == objects_of(entry_views(entries@)),
        views(res.1@) == prefixes_of(entry_views(entries@)),
{
    let mut objects: Vec<(String, QuarkFile)> = Vec::new();
    let mut prefixes: Vec<String> = Vec::new();
    let mut i: usize = 0;
    assert(entry_views(entries@).take(0) =~= Seq::<(Seq<char>, QuarkFile)>::empty());
    assert(entry_views(objects@) =~= Seq::<(Seq<char>, QuarkFile)>::empty());
    assert(views(prefixes@) =~= Seq::<Seq<char>>::empty());
    while i < entries.len()
        invariant
            i <= entries.len(),
            entry_views(objects@) == objects_of(entry_views(entries@).take(i as int)),
            views(prefixes@) == prefixes_of(entry_views(entries@).take(i as int)),
        decreases entries.len() - i,
    {
        let ghost s = entry_views(entries@).take(i + 1);
        assert(s.drop_last() == entry_views(entries@).take(i as int));
        assert(s.last() == (entries@[i as int].0@, entries@[i as int].1));
        if entries[i].1.file {
            let ghost before = objects@;
            objects.push((entries[i].0.clone(), entries[i].1.clone()));
            assert(entry_views(objects@) =~= entry_views(before).push(s.last()));
        } else {
            let ghost before = prefixes@;
            let mut p = entries[i].0.clone();
            string_push(&mut p, '/');
            prefixes.push(p);
            assert(views(prefixes@) =~= views(before).push(s.last().0.push('/')));
        }
        i += 1;
    }
    assert(entry_views(entries@).take(entries.len() as int) == entry_views(entries@));
    (objects, prefixes)
}

/// The page of the sorted `entries` at `offset` (end of `list_objects`): `max_keys` names
/// from `offset` on, files before folders, and the next offset when names remain.
pub fn paginate(entries: &Vec<(String, QuarkFile)>, offset: usize, max_keys: usize) -> (res: ListPage)
    requires
        offset + max_keys <= usize::MAX,
    ensures
        page_of(entry_views(entries@), offset as int, max_keys as int, res),
{
    let (objects, prefixes) = partition(entries);
    let ol = objects.len();
    let pl = prefixes.len();
    let next_token = if offset + max_keys < ol || offset + max_keys - ol < pl {
        Some(offset + max_keys)
    } else {
        None
    };
    let o_start = if offset < ol {
        offset
    } else {
        ol
    };
    let o_end = if offset + max_keys < ol {
        offset + max_keys
    } else {
        ol
    };
    let mut page_objects: Vec<(String, QuarkFile)> = Vec::new();
    let mut k = o_start;
    while k < o_end
        invariant
            o_start <= k <= o_end <= ol == objects.len(),
            entry_views(page_objects@) == entry_views(objects@).subrange(o_start as int, k as int),
        decreases o_end - k,
    {
        let ghost before = page_objects@;
        let e = (objects[k].0.clone(), objects[k].1.clone());
        assert(e.0@ == objects@[k as int].0@ && e.1 == objects@[k as int].1);
        page_objects.push(e);
        k += 1;
        assert(entry_views(page_objects@) =~= entry_views(before).push(entry_views(objects@)[k - 1]));
        assert(entry_views(objects@).subrange(o_start as int, k as int) =~= entry_views(objects@).subrange(o_start as int, k - 1).push(entry_views(objects@)[k - 1]));
    }
    let taken = o_end - o_start;
    let remaining = max_keys - taken;
    let skip = if offset > ol {
        offset - ol
    } else {
        0
    };
    let p_start = if skip < pl {
        skip
    } else {
        pl
    };
    let p_end = if remaining < pl - p_start {
        p_start + remaining
    } else {
        pl
    };
    let mut page_prefixes: Vec<String> = Vec::new();
    let mut k = p_start;
    while k < p_end
        invariant
            p_start <= k <= p_end <= pl == prefixes.len(),
            views(page_prefixes@) == views(prefixes@).subrange(p_start as int, k as int),
        decreases p_end - k,
    {
        let ghost before = page_prefixes@;
        page_prefixes.push(prefixes[k].clone());
        k += 1;
        assert(views(page_prefixes@) =~= views(before).push(views(prefixes@)[k - 1]));
        assert(views(prefixes@).subrange(p_start as int, k as int) =~= views(prefixes@).subrange(p_start as int, k - 1).push(views(prefixes@)[k - 1]));
    }
    ListPage { objects: page_objects, common_prefixes: page_prefixes, next_token }
}

/// The names of the listing `entries`, as pages count them: file keys, then common prefixes.
pub open spec fn names(entries: Seq<(Seq<char>, QuarkFile)>) -> Seq<Seq<char>> {
    keys(objects_of(entries)) + prefixes_of(entries)
}

/// The names that one page shows: its file keys, then its common prefixes.
pub open spec fn page_names(page: ListPage) -> Seq<Seq<char>> {
    keys(entry_views(page.objects@)) + views(page.common_prefixes@)
}

/// A page is the run of `max_keys` names of the listing that starts at `offset`.
pub proof fn law_page_is_window(
    entries: Seq<(Seq<char>, QuarkFile)>,
    offset: int,
    max_keys: int,
    page: ListPage,
)
    requires
        0 <= offset,
        0 <= max_keys,
        page_of(entries, offset, max_keys, page),
    ensures
        page_names(page) == names(entries).subrange(
            clamp(offset, 0, names(entries).len() as int),
            clamp(offset + max_keys, 0, names(entries).len() as int),
        ),
{
    let objs = objects_of(entries);
    let prefs = prefixes_of(entries);
    let ol = objs.len() as int;
    let pl = prefs.len() as int;
    let n = names(entries);
    let a = clamp(offset, 0, ol + pl);
    let b = clamp(offset + max_keys, 0, ol + pl);
    assert(keys(entry_views(page.objects@)) =~= keys(objs).subrange(clamp(offset, 0, ol), clamp(offset + max_keys, 0, ol)));
    assert(page_names(page) =~= n.subrange(a, b)) by {
        assert forall|j: int| 0 <= j < b - a implies page_names(page)[j] == n.subrange(a, b)[j] by {
            let i = a + j;
            if i < ol {
                assert(n[i] == keys(objs)[i]);
            } else {
                assert(n[i] == prefs[i - ol]);
            }
        }
    }
}

/// The names of the pages that following the next tokens visits, from `offset` on.
pub open spec fn pages_from(names: Seq<Seq<char>>, offset: int, max_keys: int) -> Seq<Seq<char>>
    decreases names.len() - offset,
{
    if max_keys <= 0 || offset < 0 || offset >= names.len() {
        Seq::empty()
    } else if offset + max_keys < names.len() {
        names.subrange(offset, offset + max_keys) + pages_from(names, offset + max_keys, max_keys)
    } else {
        names.subrange(offset, names.len() as int)
    }
}

/// Listing page after page, each started at the previous page's next token, shows every name
/// of the listing once, in order.
pub proof fn law_pages_cover_listing(names: Seq<Seq<char>>, offset: int, max_keys: int)
    requires
        0 <= offset <= names.len(),
        max_keys >= 1,
    ensures
        pages_from(names, offset, max_keys) == names.skip(offset),
    decreases names.len() - offset,
{
    if offset < names.len() {
        if offset + max_keys < names.len() {
            let e = offset + max_keys;
            law_pages_cover_listing(names, e, max_keys);
            assert(names.subrange(offset, e) + names.skip(e) =~= names.skip(offset));
        } else {
            assert(names.subrange(offset, names.len() as int) =~= names.skip(offset));
        }
    } else {
        assert(names.skip(offset) =~= Seq::<Seq<char>>::empty());
    }
}

proof fn lemma_lex_irreflexive(a: Seq<char>)
    ensures
        !lex_lt(a, a),
    decreases a.len(),
{
    if a.len() > 0 {
        lemma_lex_irreflexive(a.drop_first());
    }
}

proof fn lemma_lex_asymmetric(a: Seq<char>, b: Seq<char>)
    ensures
        lex_lt(a, b) ==> !lex_lt(b, a),
        a != b ==> lex_lt(a, b) || lex_lt(b, a),
    decreases a.len(),
{
    if a.len() > 0 && b.len() > 0 {
        if a[0] == b[0] {
            lemma_lex_asymmetric(a.drop_first(), b.drop_first());
            if a != b {
                assert(a.drop_first() != b.drop_first()) by {
                    if a.drop_first() == b.drop_first() {
                        assert(a =~= seq![a[0]] + a.drop_first());
                        assert(b =~= seq![b[0]] + b.drop_first());
                    }
                }
            }
        } else {
            assert(a[0] != b[0]);
        }
    } else if a.len() == 0 && b.len() == 0 {
        assert(a =~= b);
    }
}

proof fn lemma_lex_transitive(a: Seq<char>, b: Seq<char>, c: Seq<char>)
    requires
        lex_lt(a, b),
        lex_lt(b, c),
    ensures
        lex_lt(a, c),
    decreases a.len(),
{
    if a.len() > 0 && b.len() > 0 && c.len() > 0 {
        if a[0] == b[0] && b[0] == c[0] {
            lemma_lex_transitive(a.drop_first(), b.drop_first(), c.drop_first());
        }
    }
}

/// Keys in ascending order: no key is smaller than one before it.
pub open spec fn ascending(ks: Seq<Seq<char>>) -> bool {
    forall|i: int, j: int| 0 <= i < j < ks.len() ==> !lex_lt(#[trigger] ks[j], #[trigger] ks[i])
}

proof fn lemma_insert_keeps_ascending(ks: Seq<Seq<char>>, k: Seq<char>)
    requires
        ascending(ks),
    ensures
        ascending(ks.insert(insert_index(ks, k), k)),
{
    lemma_insert_index_bounds(ks, k);
    let p = insert_index(ks, k);
    let r = ks.insert(p, k);
    assert forall|i: int, j: int| 0 <= i < j < r.len() implies !lex_lt(#[trigger] r[j], #[trigger] r[i]) by {
        if i < p && j < p {
            assert(r[i] == ks[i] && r[j] == ks[j]);
        } else if i < p && j == p {
            assert(r[i] == ks[i] && r[j] == k);
        } else if i < p && j > p {
            assert(r[i] == ks[i] && r[j] == ks[j - 1]);
        } else if i == p {
            assert(r[i] == k && r[j] == ks[j - 1]);
            lemma_lex_asymmetric(k, ks[p]);
            if lex_lt(ks[j - 1], k) {
                if j - 1 > p {
                    lemma_lex_transitive(ks[j - 1], k, ks[p]);
                }
            }
        } else {
            assert(r[i] == ks[i - 1] && r[j] == ks[j - 1]);
        }
    }
}

proof fn lemma_keys_insert<T>(s: Seq<(Seq<char>, T)>, p: int, e: (Seq<char>, T))
    requires
        0 <= p <= s.len(),
    ensures
        keys(s.insert(p, e)) == keys(s).insert(p, e.0),
{
    assert(keys(s.insert(p, e)) =~= keys(s).insert(p, e.0));
}

/// The walk hands out its entries in ascending key order, as the listing pages need them.
pub proof fn law_sorted_keys_ascend<T>(s: Seq<(Seq<char>, T)>)
    ensures
        ascending(keys(sort_by_key(s))),
        sort_by_key(s).len() == s.len(),
    decreases s.len(),
{
    if s.len() > 0 {
        law_sorted_keys_ascend(s.drop_last());
        let r = sort_by_key(s.drop_last());
        lemma_insert_index_bounds(keys(r), s.last().0);
        lemma_keys_insert(r, insert_index(keys(r), s.last().0), s.last());
        lemma_insert_keeps_ascending(keys(r), s.last().0);
    }
}


/// The entries that a walk finds in a folder whose listing is `files` and whose entries' keys
/// start with `base`, when every folder `fid` lists as `tree(fid)`: each file, with the key
/// `base + name` (each entry, when the walk is not recursive); in a recursive walk, for each
/// folder, the entries found in it in turn, at most `depth` folders down.
pub open spec fn entries_under(
    tree: spec_fn(Seq<char>) -> Seq<QuarkFile>,
    files: Seq<QuarkFile>,
    base: Seq<char>,
    recursive: bool,
    depth: nat,
) -> Seq<(Seq<char>, QuarkFile)>
    decreases depth, files.len(),
{
    if files.len() == 0 {
        Seq::empty()
    } else {
        let front = entries_under(tree, files.drop_last(), base, recursive, depth);
        let f = files.last();
        let key = base + f.file_name@;
        if recursive && !f.file {
            if depth == 0 {
                front
            } else {
                front + entries_under(tree, tree(f.fid@), key.push('/'), recursive, (depth - 1) as nat)
            }
        } else {
            front.push((key, f))
        }
    }
}

/// Every folder that a recursive walk of `files` goes into lies at most `depth` folders down.
pub open spec fn within_depth(
    tree: spec_fn(Seq<char>) -> Seq<QuarkFile>,
    files: Seq<QuarkFile>,
    recursive: bool,
    depth: nat,
) -> bool
    decreases depth,
{
    forall|i: int|
        0 <= i < files.len() && recursive && !(#[trigger] files[i]).file ==> depth > 0
            && within_depth(tree, tree(files[i].fid@), recursive, (depth - 1) as nat)
}

/// One round of `list_files_for_s3` on the tree `tree`: the folder on top of the stack is listed
/// and its listing absorbed.
pub open spec fn walk_round(
    tree: spec_fn(Seq<char>) -> Seq<QuarkFile>,
    stack: Seq<(Seq<char>, Seq<char>)>,
    out: Seq<(Seq<char>, QuarkFile)>,
    recursive: bool,
) -> (Seq<(Seq<char>, Seq<char>)>, Seq<(Seq<char>, QuarkFile)>) {
    if stack.len() == 0 {
        (stack, out)
    } else {
        absorb_spec(stack.drop_last(), out, recursive, stack.last().1, tree(stack.last().0))
    }
}

/// `n` rounds of the walk, or fewer when the stack runs empty.
pub open spec fn walk_rounds(
    tree: spec_fn(Seq<char>) -> Seq<QuarkFile>,
    stack: Seq<(Seq<char>, Seq<char>)>,
    out: Seq<(Seq<char>, QuarkFile)>,
    recursive: bool,
    n: nat,
) -> (Seq<(Seq<char>, Seq<char>)>, Seq<(Seq<char>, QuarkFile)>)
    decreases n,
{
    if n == 0 || stack.len() == 0 {
        (stack, out)
    } else {
        let (s, o) = walk_round(tree, stack, out, recursive);
        walk_rounds(tree, s, o, recursive, (n - 1) as nat)
    }
}

/// The entries still to be found under the queued folders, each at most `depths[j]` down.
spec fn pending(
    tree: spec_fn(Seq<char>) -> Seq<QuarkFile>,
    stack: Seq<(Seq<char>, Seq<char>)>,
    depths: Seq<nat>,
    recursive: bool,
) -> Multiset<(Seq<char>, QuarkFile)>
    decreases stack.len(),
{
    if stack.len() == 0 || depths.len() == 0 {
        Multiset::empty()
    } else {
        pending(tree, stack.drop_last(), depths.drop_last(), recursive).add(
            entries_under(tree, tree(stack.last().0), stack.last().1, recursive, depths.last()).to_multiset(),
        )
    }
}

spec fn queued_within(
    tree: spec_fn(Seq<char>) -> Seq<QuarkFile>,
    stack: Seq<(Seq<char>, Seq<char>)>,
    depths: Seq<nat>,
    recursive: bool,
) -> bool {
    &&& depths.len() == stack.len()
    &&& forall|j: int|
        0 <= j < stack.len() ==> within_depth(tree, tree((#[trigger] stack[j]).0), recursive, depths[j])
}

proof fn lemma_empty_entries<A>()
    ensures
        Seq::<A>::empty().to_multiset() =~= Multiset::<A>::empty(),
{
    broadcast use vstd::seq_lib::group_to_multiset_ensures, vstd::multiset::group_multiset_axioms;

    assert forall|a: A| Seq::<A>::empty().to_multiset().count(a) == 0 by {
        assert(!Seq::<A>::empty().contains(a));
    }
}

/// Absorbing a listing moves its entries, and the entries under its folders, from what the
/// folder holds to what is found or queued.
proof fn lemma_absorb_moves(
    tree: spec_fn(Seq<char>) -> Seq<QuarkFile>,
    stack: Seq<(Seq<char>, Seq<char>)>,
    out: Seq<(Seq<char>, QuarkFile)>,
    depths: Seq<nat>,
    recursive: bool,
    base: Seq<char>,
    files: Seq<QuarkFile>,
    depth: nat,
) -> (depths2: Seq<nat>)
    requires
        queued_within(tree, stack, depths, recursive),
        within_depth(tree, files, recursive, depth),
    ensures
        queued_within(tree, absorb_spec(stack, out, recursive, base, files).0, depths2, recursive),
        absorb_spec(stack, out, recursive, base, files).1.to_multiset().add(
            pending(tree, absorb_spec(stack, out, recursive, base, files).0, depths2, recursive),
        ) == out.to_multiset().add(pending(tree, stack, depths, recursive)).add(
            entries_under(tree, files, base, recursive, depth).to_multiset(),
        ),
    decreases files.len(),
{
    broadcast use vstd::seq_lib::to_multiset_build, vstd::seq_lib::lemma_multiset_commutative;
    broadcast use vstd::multiset::group_multiset_axioms;

    if files.len() == 0 {
        lemma_empty_entries::<(Seq<char>, QuarkFile)>();
        assert(entries_under(tree, files, base, recursive, depth) =~= Seq::<(Seq<char>, QuarkFile)>::empty());
        assert(out.to_multiset().add(pending(tree, stack, depths, recursive)).add(
            Seq::<(Seq<char>, QuarkFile)>::empty().to_multiset(),
        ) =~= out.to_multiset().add(pending(tree, stack, depths, recursive)));
        depths
    } else {
        let fl = files.drop_last();
        assert forall|i: int|
            0 <= i < fl.len() && recursive && !(#[trigger] fl[i]).file implies depth > 0
                && within_depth(tree, tree(fl[i].fid@), recursive, (depth - 1) as nat) by {
            assert(fl[i] == files[i]);
        }
        let d1 = lemma_absorb_moves(tree, stack, out, depths, recursive, base, fl, depth);
        let (s1, o1) = absorb_spec(stack, out, recursive, base, fl);
        let f = files.last();
        let key = base + f.file_name@;
        let e1 = entries_under(tree, fl, base, recursive, depth);
        if recursive && !f.file {
            assert(files[files.len() - 1] == f);
            assert(depth > 0 && within_depth(tree, tree(f.fid@), recursive, (depth - 1) as nat));
            let d2 = d1.push((depth - 1) as nat);
            let s2 = s1.push((f.fid@, key.push('/')));
            let x = entries_under(tree, tree(f.fid@), key.push('/'), recursive, (depth - 1) as nat);
            assert(absorb_spec(stack, out, recursive, base, files) == (s2, o1));
            assert(s2.drop_last() =~= s1 && d2.drop_last() =~= d1);
            assert(pending(tree, s2, d2, recursive) == pending(tree, s1, d1, recursive).add(x.to_multiset()));
            assert forall|j: int| 0 <= j < s2.len() implies within_depth(
                tree,
                tree((#[trigger] s2[j]).0),
                recursive,
                d2[j],
            ) by {
                if j < s1.len() {
                    assert(s2[j] == s1[j] && d2[j] == d1[j]);
                }
            }
            assert(entries_under(tree, files, base, recursive, depth) == e1 + x);
            vstd::seq_lib::lemma_multiset_commutative(e1, x);
            let ih_l = o1.to_multiset().add(pending(tree, s1, d1, recursive));
            let ih_r = out.to_multiset().add(pending(tree, stack, depths, recursive)).add(
                e1.to_multiset(),
            );
            assert(ih_l == ih_r);
            assert forall|v: (Seq<char>, QuarkFile)|
                #[trigger] o1.to_multiset().add(pending(tree, s2, d2, recursive)).count(v)
                    == out.to_multiset().add(pending(tree, stack, depths, recursive)).add(
                    (e1 + x).to_multiset(),
                ).count(v) by {
                assert(ih_l.count(v) == ih_r.count(v));
            }
            assert(o1.to_multiset().add(pending(tree, s2, d2, recursive)) =~= out.to_multiset().add(
                pending(tree, stack, depths, recursive),
            ).add((e1 + x).to_multiset()));
            d2
        } else {
            assert(absorb_spec(stack, out, recursive, base, files) == (s1, o1.push((key, f))));
            assert(entries_under(tree, files, base, recursive, depth) == e1.push((key, f)));
            vstd::seq_lib::to_multiset_build(o1, (key, f));
            vstd::seq_lib::to_multiset_build(e1, (key, f));
            let ih_l = o1.to_multiset().add(pending(tree, s1, d1, recursive));
            let ih_r = out.to_multiset().add(pending(tree, stack, depths, recursive)).add(
                e1.to_multiset(),
            );
            assert(ih_l == ih_r);
            assert forall|v: (Seq<char>, QuarkFile)|
                #[trigger] o1.push((key, f)).to_multiset().add(pending(tree, s1, d1, recursive)).count(v)
                    == out.to_multiset().add(pending(tree, stack, depths, recursive)).add(
                    e1.push((key, f)).to_multiset(),
                ).count(v) by {
                assert(ih_l.count(v) == ih_r.count(v));
            }
            assert(o1.push((key, f)).to_multiset().add(pending(tree, s1, d1, recursive))
                =~= out.to_multiset().add(pending(tree, stack, depths, recursive)).add(
                e1.push((key, f)).to_multiset(),
            ));
            d1
        }
    }
}

proof fn lemma_rounds_keep(
    tree: spec_fn(Seq<char>) -> Seq<QuarkFile>,
    stack: Seq<(Seq<char>, Seq<char>)>,
    out: Seq<(Seq<char>, QuarkFile)>,
    depths: Seq<nat>,
    recursive: bool,
    n: nat,
)
    requires
        queued_within(tree, stack, depths, recursive),
    ensures
        walk_rounds(tree, stack, out, recursive, n).0.len() == 0 ==> walk_rounds(
            tree,
            stack,
            out,
            recursive,
            n,
        ).1.to_multiset() == out.to_multiset().add(pending(tree, stack, depths, recursive)),
    decreases n,
{
    broadcast use vstd::multiset::group_multiset_axioms;

    if n == 0 || stack.len() == 0 {
        if stack.len() == 0 {
            assert(out.to_multiset().add(pending(tree, stack, depths, recursive)) =~= out.to_multiset());
        }
    } else {
        let top = stack.last();
        let rest = stack.drop_last();
        let drest = depths.drop_last();
        assert(within_depth(tree, tree(top.0), recursive, depths.last())) by {
            assert(stack[stack.len() - 1] == top);
        }
        assert forall|j: int| 0 <= j < rest.len() implies within_depth(
            tree,
            tree((#[trigger] rest[j]).0),
            recursive,
            drest[j],
        ) by {
            assert(rest[j] == stack[j] && drest[j] == depths[j]);
        }
        let d2 = lemma_absorb_moves(tree, rest, out, drest, recursive, top.1, tree(top.0), depths.last());
        let (s2, o2) = walk_round(tree, stack, out, recursive);
        lemma_rounds_keep(tree, s2, o2, d2, recursive, (n - 1) as nat);
        assert(out.to_multiset().add(pending(tree, rest, drest, recursive)).add(
            entries_under(tree, tree(top.0), top.1, recursive, depths.last()).to_multiset(),
        ) =~= out.to_multiset().add(pending(tree, stack, depths, recursive)));
    }
}

/// Stable sorting by key keeps the entries: the same ones, as often.
pub proof fn lemma_sort_keeps_entries<T>(s: Seq<(Seq<char>, T)>)
    ensures
        sort_by_key(s).to_multiset() == s.to_multiset(),
    decreases s.len(),
{
    broadcast use vstd::seq_lib::to_multiset_build, vstd::seq_lib::to_multiset_insert;

    if s.len() > 0 {
        lemma_sort_keeps_entries(s.drop_last());
        let r = sort_by_key(s.drop_last());
        law_sorted_keys_ascend(s.drop_last());
        lemma_insert_index_bounds(keys(r), s.last().0);
        assert(s.drop_last().push(s.last()) =~= s);
    }
}

/// A walk over a tree that does not change, run until no folder is left to list, finds exactly
/// the entries under its folder (each file, every folder down, when recursive), each as often as
/// the tree holds it; `finish` hands them out in ascending key order. `depth` is any bound on
/// how deep the folders go.
pub proof fn law_walk_finds_subtree(
    tree: spec_fn(Seq<char>) -> Seq<QuarkFile>,
    parent: Seq<char>,
    base: Seq<char>,
    recursive: bool,
    depth: nat,
    n: nat,
)
    requires
        within_depth(tree, tree(parent), recursive, depth),
        walk_rounds(tree, seq![(parent, base)], Seq::empty(), recursive, n).0.len() == 0,
    ensures
        ({
            let found = walk_rounds(tree, seq![(parent, base)], Seq::empty(), recursive, n).1;
            &&& found.to_multiset() == entries_under(tree, tree(parent), base, recursive, depth).to_multiset()
            &&& sort_by_key(found).to_multiset() == found.to_multiset()
            &&& ascending(keys(sort_by_key(found)))
        }),
{
    broadcast use vstd::multiset::group_multiset_axioms;

    let stack = seq![(parent, base)];
    let depths = seq![depth];
    let out = Seq::<(Seq<char>, QuarkFile)>::empty();
    assert(stack[0] == (parent, base));
    assert(queued_within(tree, stack, depths, recursive));
    lemma_rounds_keep(tree, stack, out, depths, recursive, n);
    assert(stack.drop_last() =~= Seq::<(Seq<char>, Seq<char>)>::empty());
    assert(depths.drop_last() =~= Seq::<nat>::empty());
    lemma_empty_entries::<(Seq<char>, QuarkFile)>();
    assert(out.to_multiset() =~= Multiset::empty());
    let e = entries_under(tree, tree(parent), base, recursive, depth);
    assert(pending(tree, stack, depths, recursive) == pending(
        tree,
        stack.drop_last(),
        depths.drop_last(),
        recursive,
    ).add(e.to_multiset()));
    assert(pending(tree, stack.drop_last(), depths.drop_last(), recursive) == Multiset::<
        (Seq<char>, QuarkFile),
    >::empty());
    assert(out.to_multiset().add(pending(tree, stack, depths, recursive)) =~= entries_under(
        tree,
        tree(parent),
        base,
        recursive,
        depth,
    ).to_multiset());
    let found = walk_rounds(tree, stack, out, recursive, n).1;
    lemma_sort_keeps_entries(found);
    law_sorted_keys_ascend(found);
}

} // verus!
