//! The Quark drive client's own logic: keys and paths, listings, the upload protocol's texts and
//! decisions. The requests themselves are sent by the program around this library.

use vstd::prelude::*;
use crate::text::{
    rsplit_once, rsplit_once_exec, split, split_exec, trim_char, trim_char_exec, views,
};

verus! {

/// One entry of a Quark folder listing.
#[derive(Debug)]
pub struct QuarkFile {
    pub fid: String,
    pub file_name: String,
    pub size: i64,
    /// A file, not a folder.
    pub file: bool,
    pub created_at: i64,
    pub updated_at: i64,
}

impl Clone for QuarkFile {
    fn clone(&self) -> (res: Self)
        ensures
            res == *self,
    {
        QuarkFile {
            fid: self.fid.clone(),
            file_name: self.file_name.clone(),
            size: self.size,
            file: self.file,
            created_at: self.created_at,
            updated_at: self.updated_at,
        }
    }
}

/// `split_key`: the key without surrounding `/`, split at its last `/` into folder and name; a
/// key without `/` is a name in the root folder.
pub open spec fn split_key_spec(key: Seq<char>) -> (Seq<char>, Seq<char>) {
    let k = trim_char(key, '/');
    match rsplit_once(k, '/') {
        Some(p) => p,
        None => (Seq::empty(), k),
    }
}

pub fn split_key(key: &str) -> (res: (String, String))
    ensures
        (res.0@, res.1@) == split_key_spec(key@),
{
    let k = trim_char_exec(key, '/');
    match rsplit_once_exec(k.as_str(), '/') {
        Some(p) => p,
        None => (String::new(), k),
    }
}

/// The non-empty `/`-separated segments of `pieces`, in order.
pub open spec fn nonempty(pieces: Seq<Seq<char>>) -> Seq<Seq<char>>
    decreases pieces.len(),
{
    if pieces.len() == 0 {
        Seq::empty()
    } else if pieces.last().len() == 0 {
        nonempty(pieces.drop_last())
    } else {
        nonempty(pieces.drop_last()).push(pieces.last())
    }
}

/// The folder names along `path` (`path.split('/').filter(|p| !p.is_empty())`).
pub open spec fn path_segments(path: Seq<char>) -> Seq<Seq<char>> {
    nonempty(split(path, '/'))
}

pub fn path_segments_exec(path: &str) -> (res: Vec<String>)
    ensures
        views(res@) == path_segments(path@),
{
    let pieces = split_exec(path, '/');
    let mut out: Vec<String> = Vec::new();
    let mut i: usize = 0;
    assert(views(pieces@).take(0) =~= Seq::<Seq<char>>::empty());
    assert(views(out@) =~= Seq::<Seq<char>>::empty());
    while i < pieces.len()
        invariant
            i <= pieces.len(),
            views(out@) == nonempty(views(pieces@).take(i as int)),
        decreases pieces.len() - i,
    {
        let ghost t = views(pieces@).take(i + 1);
        assert(t.drop_last() == views(pieces@).take(i as int));
        assert(t.last() == pieces@[i as int]@);
        if !pieces[i].as_str().is_empty() {
            let ghost before = out@;
            out.push(pieces[i].clone());
            assert(views(out@) =~= views(before).push(pieces@[i as int]@));
        }
        i += 1;
    }
    assert(views(pieces@).take(pieces.len() as int) == views(pieces@));
    out
}

/// Index of the first entry of `files` that is a folder named `name`.
pub open spec fn first_dir(files: Seq<QuarkFile>, name: Seq<char>) -> Option<int>
    decreases files.len(),
{
    if files.len() == 0 {
        None
    } else if !files[0].file && files[0].file_name@ == name {
        Some(0)
    } else {
        match first_dir(files.drop_first(), name) {
            Some(i) => Some(i + 1),
            None => None,
        }
    }
}

pub proof fn lemma_first_dir_bounds(files: Seq<QuarkFile>, name: Seq<char>)
    ensures
        first_dir(files, name) matches Some(i) ==> 0 <= i < files.len() && !files[i].file
            && files[i].file_name@ == name,
    decreases files.len(),
{
    if files.len() > 0 {
        lemma_first_dir_bounds(files.drop_first(), name);
    }
}

/// Index of the first entry of `files` named `name`, file or folder.
pub open spec fn first_named(files: Seq<QuarkFile>, name: Seq<char>) -> Option<int>
    decreases files.len(),
{
    if files.len() == 0 {
        None
    } else if files[0].file_name@ == name {
        Some(0)
    } else {
        match first_named(files.drop_first(), name) {
            Some(i) => Some(i + 1),
            None => None,
        }
    }
}

/// Looking a name up finds the entry with exactly that name, the first one: when `first_named`
/// gives an index, the entry there is named `name` and none before it is; when it gives none, no
/// entry is named `name`. Likewise `first_dir` for the folders named `name`.
pub proof fn law_lookup_is_exact(files: Seq<QuarkFile>, name: Seq<char>)
    ensures
        first_named(files, name) matches Some(i) ==> {
            &&& 0 <= i < files.len()
            &&& files[i].file_name@ == name
            &&& forall|j: int| 0 <= j < i ==> (#[trigger] files[j]).file_name@ != name
        },
        first_named(files, name) is None ==> forall|j: int|
            0 <= j < files.len() ==> (#[trigger] files[j]).file_name@ != name,
        first_dir(files, name) matches Some(i) ==> {
            &&& 0 <= i < files.len()
            &&& !files[i].file && files[i].file_name@ == name
            &&& forall|j: int| 0 <= j < i ==> !(!(#[trigger] files[j]).file && files[j].file_name@ == name)
        },
        first_dir(files, name) is None ==> forall|j: int|
            0 <= j < files.len() ==> !(!(#[trigger] files[j]).file && files[j].file_name@ == name),
    decreases files.len(),
{
    if files.len() > 0 {
        law_lookup_is_exact(files.drop_first(), name);
        assert forall|j: int| 1 <= j < files.len() implies files[j] == files.drop_first()[j - 1] by {}
    }
}

/// The first entry of `files` named `name` (folders only when `dirs_only`).
pub fn find_entry(files: &Vec<QuarkFile>, name: &str, dirs_only: bool) -> (res: Option<usize>)
    ensures
        match res {
            Some(i) => (if dirs_only {
                first_dir(files@, name@)
            } else {
                first_named(files@, name@)
            }) == Some(i as int),
            None => (if dirs_only {
                first_dir(files@, name@)
            } else {
                first_named(files@, name@)
            }) is None,
        },
{
    let mut i: usize = files.len();
    let mut found: Option<usize> = None;
    let ghost f = if dirs_only {
        first_dir(files@, name@)
    } else {
        first_named(files@, name@)
    };
    assert(files@.skip(files.len() as int) =~= Seq::<QuarkFile>::empty());
    while i > 0
        invariant
            i <= files.len(),
            f == (if dirs_only {
                first_dir(files@, name@)
            } else {
                first_named(files@, name@)
            }),
            match found {
                Some(j) => i <= j < files.len() && (if dirs_only {
                    first_dir(files@.skip(i as int), name@)
                } else {
                    first_named(files@.skip(i as int), name@)
                }) == Some(j - i),
                None => (if dirs_only {
                    first_dir(files@.skip(i as int), name@)
                } else {
                    first_named(files@.skip(i as int), name@)
                }) is None,
            },
        decreases i,
    {
        i -= 1;
        let ghost s = files@.skip(i as int);
        assert(s.drop_first() == files@.skip(i + 1));
        assert(s[0] == files@[i as int]);
        let hit = (!dirs_only || !files[i].file) && files[i].file_name == name.to_owned();
        if hit {
            found = Some(i);
        }
    }
    assert(files@.skip(0) == files@);
    found
}

/// What `find_object` looks up for `key`: nothing for an empty key, else the folder path and
/// the name (`split_key`).
pub open spec fn object_lookup_spec(key: Seq<char>) -> Option<(Seq<char>, Seq<char>)> {
    if trim_char(key, '/').len() == 0 {
        None
    } else {
        Some(split_key_spec(key))
    }
}

pub fn object_lookup(key: &str) -> (res: Option<(String, String)>)
    ensures
        match res {
            Some((d, n)) => object_lookup_spec(key@) == Some((d@, n@)),
            None => object_lookup_spec(key@) is None,
        },
{
    let k = trim_char_exec(key, '/');
    if k.as_str().is_empty() {
        None
    } else {
        Some(split_key(key))
    }
}

/// `download_url`'s choice: the first URL of the answer, when it is not empty.
pub fn first_download_url(urls: &Vec<String>) -> (res: Option<String>)
    ensures
        match res {
            Some(u) => urls@.len() > 0 && u@ == urls@[0]@ && u@.len() > 0,
            None => urls@.len() == 0 || urls@[0]@.len() == 0,
        },
{
    if urls.len() == 0 {
        None
    } else if urls[0].as_str().is_empty() {
        None
    } else {
        Some(urls[0].clone())
    }
}

/// `request`'s verdict on a Quark API answer: its `status` of 400 or more, or a `code` other than
/// 0, is an error.
pub fn api_failed(status: i64, code: i64) -> (res: bool)
    ensures
        res == (status >= 400 || code != 0),
{
    status >= 400 || code != 0
}

/// `list_files`' paging: after page `page` of `size` entries, another page is fetched while
/// `page * size` is below the total.
pub fn more_pages(page: usize, size: usize, total: usize) -> (res: bool)
    ensures
        res == (page * size < total),
{
    let p = page as u128;
    let s = size as u128;
    assert(p * s <= u64::MAX as u128 * u64::MAX as u128) by (nonlinear_arith)
        requires
            p <= u64::MAX,
            s <= u64::MAX,
    ;
    p * s < total as u128
}

/// `list_files`: the pages of one folder's listing, fetched in turn.
pub struct FilePages {
    /// The page to fetch next, from 1.
    pub page: usize,
    /// Entries per page.
    pub size: usize,
    /// The entries of the pages fetched so far, in order.
    pub files: Vec<QuarkFile>,
}

impl FilePages {
    /// Before the first page: page 1 of 100 entries.
    pub fn new() -> (res: FilePages)
        ensures
            res.page == 1 && res.size == 100 && res.files@.len() == 0,
    {
        FilePages { page: 1, size: 100, files: Vec::new() }
    }

    /// Takes in one page `list` of a listing of `total` entries; `true` when another page is
    /// to be fetched (then `page` has advanced).
    pub fn absorb(&mut self, list: Vec<QuarkFile>, total: usize) -> (more: bool)
        requires
            old(self).size >= 1,
        ensures
            final(self).files@ == old(self).files@ + list@,
            final(self).size == old(self).size,
            more == (old(self).page * old(self).size < total),
            final(self).page == (if more {
                old(self).page + 1
            } else {
                old(self).page as int
            }),
    {
        let mut list = list;
        let ghost l = list@;
        self.files.append(&mut list);
        if more_pages(self.page, self.size, total) {
            assert(self.page < usize::MAX) by (nonlinear_arith)
                requires
                    self.page * self.size < total,
                    self.size >= 1,
                    total <= usize::MAX,
            ;
            self.page = self.page + 1;
            true
        } else {
            false
        }
    }
}

/// What resolving a folder path asks next.
pub enum ResolveAction {
    /// List the folder with this id.
    List(String),
    /// Create the folder `name` in `parent`, wait `pause_millis` milliseconds, and list `parent`
    /// again.
    Mkdir { parent: String, name: String, pause_millis: u64 },
    /// The path resolves to the folder with this id.
    Done(String),
    /// A folder of the path does not exist (`directory not found: {path}`).
    NotFound,
    /// A folder just created does not show (`created directory did not appear: {name}`).
    NotCreated(String),
}

/// `resolve_dir`: walks the folders of a path from the root, each found by name in its
/// parent's listing, creating missing ones when asked to.
pub struct ResolveDir {
    pub parts: Vec<String>,
    /// Folders of the path resolved so far.
    pub index: usize,
    /// Id of the last folder resolved (the root at first).
    pub parent: String,
    pub create: bool,
    /// The folder `parts[index]` was just created.
    pub created: bool,
}

pub open spec fn resolve_next(r: ResolveDir) -> ResolveAction {
    if r.index >= r.parts@.len() {
        ResolveAction::Done(r.parent)
    } else {
        ResolveAction::List(r.parent)
    }
}

impl ResolveDir {
    pub open spec fn wf(&self) -> bool {
        self.index <= self.parts@.len()
    }

    /// The walk after the listing `files` of its current folder: the first folder named
    /// `parts[index]` becomes the current one; when there is none, the walk fails, or (once,
    /// when creating) asks for the folder to be made.
    pub open spec fn after_listing(self, files: Seq<QuarkFile>) -> (ResolveDir, ResolveAction) {
        let name = self.parts@[self.index as int];
        match first_dir(files, name@) {
            Some(i) => {
                let r = ResolveDir {
                    parts: self.parts,
                    index: (self.index + 1) as usize,
                    parent: files[i].fid,
                    create: self.create,
                    created: false,
                };
                (r, resolve_next(r))
            },
            None => if self.created {
                (self, ResolveAction::NotCreated(name))
            } else if !self.create {
                (self, ResolveAction::NotFound)
            } else {
                (
                    ResolveDir {
                        parts: self.parts,
                        index: self.index,
                        parent: self.parent,
                        create: self.create,
                        created: true,
                    },
                    ResolveAction::Mkdir { parent: self.parent, name, pause_millis: 1000 },
                )
            },
        }
    }

    /// The walk of `path` from the folder `root_fid`.
    pub fn new(root_fid: &str, path: &str, create: bool) -> (res: (ResolveDir, ResolveAction))
        ensures
            res.0.wf(),
            views(res.0.parts@) == path_segments(path@),
            res.0.index == 0,
            res.0.parent@ == root_fid@,
            res.0.create == create,
            !res.0.created,
            res.1 == resolve_next(res.0),
    {
        let parts = path_segments_exec(path);
        let r = ResolveDir { parts, index: 0, parent: root_fid.to_owned(), create, created: false };
        let a = if r.parts.len() == 0 {
            ResolveAction::Done(r.parent.clone())
        } else {
            ResolveAction::List(r.parent.clone())
        };
        (r, a)
    }

    /// Takes in the listing `files` of `parent`: the folder named `parts[index]` becomes the
    /// parent; missing, it is created (once) or the walk fails.
    pub fn on_listing(&mut self, files: &Vec<QuarkFile>) -> (res: ResolveAction)
        requires
            old(self).wf(),
            old(self).index < old(self).parts@.len(),
        ensures
            final(self).wf(),
            (*final(self), res) == old(self).after_listing(files@),
            final(self).parts == old(self).parts,
            final(self).create == old(self).create,
            match first_dir(files@, old(self).parts@[old(self).index as int]@) {
                Some(i) => {
                    &&& final(self).parent == files@[i].fid
                    &&& final(self).index == old(self).index + 1
                    &&& !final(self).created
                    &&& res == resolve_next(*final(self))
                },
                None => {
                    &&& final(self).parent == old(self).parent
                    &&& final(self).index == old(self).index
                    &&& if old(self).created {
                        res == ResolveAction::NotCreated(old(self).parts@[old(self).index as int])
                    } else if !old(self).create {
                        res == ResolveAction::NotFound
                    } else {
                        &&& final(self).created
                        &&& res == (ResolveAction::Mkdir {
                            parent: old(self).parent,
                            name: old(self).parts@[old(self).index as int],
                            pause_millis: 1000,
                        })
                    }
                },
            },
    {
        let idx = self.index;
        let n = self.parts.len();
        assert(idx < n);
        let name = self.parts[idx].clone();
        proof {
            lemma_first_dir_bounds(files@, name@);
        }
        match find_entry(files, name.as_str(), true) {
            Some(i) => {
                self.parent = files[i].fid.clone();
                self.index = idx + 1;
                self.created = false;
                if self.index >= self.parts.len() {
                    ResolveAction::Done(self.parent.clone())
                } else {
                    ResolveAction::List(self.parent.clone())
                }
            },
            None => {
                if self.created {
                    ResolveAction::NotCreated(name)
                } else if !self.create {
                    ResolveAction::NotFound
                } else {
                    self.created = true;
                    ResolveAction::Mkdir { parent: self.parent.clone(), name, pause_millis: 1000 }
                }
            },
        }
    }
}

/// The folder that the folder names `parts` lead to from the folder `parent`, when each folder's
/// listing is `tree(fid)`: each name is the first folder of that name; `None` when one is missing.
pub open spec fn walk(
    tree: spec_fn(Seq<char>) -> Seq<QuarkFile>,
    parent: Seq<char>,
    parts: Seq<Seq<char>>,
) -> Option<Seq<char>>
    decreases parts.len(),
{
    if parts.len() == 0 {
        Some(parent)
    } else {
        match first_dir(tree(parent), parts[0]) {
            Some(i) => walk(tree, tree(parent)[i].fid@, parts.drop_first()),
            None => None,
        }
    }
}

/// How a walk in state `r`, with `a` asked next, ends when each listing it asks for is
/// answered from `tree`; it ends at the first action that is not a listing (a `Mkdir` too).
pub open spec fn drive(
    r: ResolveDir,
    a: ResolveAction,
    tree: spec_fn(Seq<char>) -> Seq<QuarkFile>,
) -> ResolveAction
    decreases r.parts@.len() - r.index,
{
    match a {
        ResolveAction::List(p) => if r.index < r.parts@.len() {
            let (r2, a2) = r.after_listing(tree(p@));
            if r2.index > r.index && r2.parts == r.parts {
                drive(r2, a2, tree)
            } else {
                a2
            }
        } else {
            a
        },
        _ => a,
    }
}

/// Whether the walk is waiting for a listing of its current folder (after `List` or `Mkdir`).
pub open spec fn lists_next(r: ResolveDir, a: ResolveAction) -> bool {
    (a is List || a is Mkdir) && r.index < r.parts@.len()
}

/// The walk in state `r`, with `a` asked next, after the listings `listings` of its current
/// folder, taken in one after another while it asks for them.
pub open spec fn run(r: ResolveDir, a: ResolveAction, listings: Seq<Seq<QuarkFile>>) -> (
    ResolveDir,
    ResolveAction,
)
    decreases listings.len(),
{
    if listings.len() == 0 || !lists_next(r, a) {
        (r, a)
    } else {
        let (r2, a2) = r.after_listing(listings[0]);
        run(r2, a2, listings.drop_first())
    }
}

/// `tree` lists each folder that the run went through as the run saw it when it found the next
/// folder there: the tree has not changed since.
pub open spec fn tree_as_seen(
    r: ResolveDir,
    a: ResolveAction,
    listings: Seq<Seq<QuarkFile>>,
    tree: spec_fn(Seq<char>) -> Seq<QuarkFile>,
) -> bool
    decreases listings.len(),
{
    if listings.len() == 0 || !lists_next(r, a) {
        true
    } else {
        let (r2, a2) = r.after_listing(listings[0]);
        &&& (r2.index > r.index ==> tree(r.parent@) == listings[0])
        &&& tree_as_seen(r2, a2, listings.drop_first(), tree)
    }
}

/// The folder names that the walk in state `r` has still to find.
pub open spec fn remaining(r: ResolveDir) -> Seq<Seq<char>> {
    views(r.parts@).skip(r.index as int)
}

/// On an unchanged folder tree, resolving a path that is there reuses its folders: each listing
/// finds the next folder, no folder is created, and the walk ends at the folder that the path
/// leads to, whether or not creating was asked for.
pub proof fn law_resolve_reuses_folders(
    r: ResolveDir,
    tree: spec_fn(Seq<char>) -> Seq<QuarkFile>,
    f: Seq<char>,
)
    requires
        r.wf(),
        r.parts@.len() <= usize::MAX,
        walk(tree, r.parent@, remaining(r)) == Some(f),
    ensures
        drive(r, resolve_next(r), tree) matches ResolveAction::Done(g) && g@ == f,
    decreases r.parts@.len() - r.index,
{
    if r.index >= r.parts@.len() {
        assert(remaining(r) =~= Seq::<Seq<char>>::empty());
    } else {
        let rest = remaining(r);
        assert(rest.len() > 0);
        assert(rest[0] == r.parts@[r.index as int]@);
        assert(rest.drop_first() =~= views(r.parts@).skip(r.index + 1));
        assert(first_dir(tree(r.parent@), rest[0]) is Some);
        lemma_first_dir_bounds(tree(r.parent@), rest[0]);
        let i = first_dir(tree(r.parent@), rest[0])->0;
        assert(walk(tree, tree(r.parent@)[i].fid@, rest.drop_first()) == Some(f));
        let (r2, a2) = r.after_listing(tree(r.parent@));
        assert(r2.parent == tree(r.parent@)[i].fid);
        lemma_first_dir_bounds(tree(r.parent@), rest[0]);
        assert(r2.index == r.index + 1);
        assert(remaining(r2) == rest.drop_first());
        law_resolve_reuses_folders(r2, tree, f);
    }
}

/// A run that ends at a folder leaves, on a tree unchanged since, a path to that folder.
proof fn lemma_run_leaves_path(
    r: ResolveDir,
    a: ResolveAction,
    listings: Seq<Seq<QuarkFile>>,
    tree: spec_fn(Seq<char>) -> Seq<QuarkFile>,
)
    requires
        r.wf(),
        r.parts@.len() <= usize::MAX,
        a == resolve_next(r) || (a is Mkdir && r.index < r.parts@.len()) || a is NotFound
            || a is NotCreated,
        run(r, a, listings).1 is Done,
        tree_as_seen(r, a, listings, tree),
    ensures
        run(r, a, listings).1 matches ResolveAction::Done(f) && walk(tree, r.parent@, remaining(r))
            == Some(f@),
    decreases listings.len(),
{
    if listings.len() == 0 || !lists_next(r, a) {
        assert(run(r, a, listings) == (r, a));
        assert(a == resolve_next(r));
        assert(r.index >= r.parts@.len());
        assert(remaining(r) =~= Seq::<Seq<char>>::empty());
    } else {
        let (r2, a2) = r.after_listing(listings[0]);
        assert(run(r, a, listings) == run(r2, a2, listings.drop_first()));
        assert(tree_as_seen(r2, a2, listings.drop_first(), tree));
        let rest = remaining(r);
        assert(rest.len() > 0);
        assert(rest[0] == r.parts@[r.index as int]@);
        lemma_first_dir_bounds(listings[0], rest[0]);
        lemma_run_leaves_path(r2, a2, listings.drop_first(), tree);
        if r2.index > r.index {
            assert(rest.drop_first() =~= views(r.parts@).skip(r.index + 1));
            assert(remaining(r2) == rest.drop_first());
        }
    }
}

/// Creating a path is idempotent: after a walk that ended at a folder, on a tree unchanged since,
/// a second walk of the same path from the same folder, creating or not, finds every folder,
/// creates none, and ends at the same folder.
pub proof fn law_resolve_idempotent(
    first: ResolveDir,
    listings: Seq<Seq<QuarkFile>>,
    tree: spec_fn(Seq<char>) -> Seq<QuarkFile>,
    again: ResolveDir,
)
    requires
        first.wf(),
        first.parts@.len() <= usize::MAX,
        run(first, resolve_next(first), listings).1 is Done,
        tree_as_seen(first, resolve_next(first), listings, tree),
        again.parts == first.parts,
        again.index == first.index,
        again.parent@ == first.parent@,
    ensures
        run(first, resolve_next(first), listings).1 matches ResolveAction::Done(f) && drive(
            again,
            resolve_next(again),
            tree,
        ) matches ResolveAction::Done(g) && g@ == f@,
{
    lemma_run_leaves_path(first, resolve_next(first), listings, tree);
    let f = run(first, resolve_next(first), listings).1->Done_0;
    assert(remaining(again) == remaining(first));
    law_resolve_reuses_folders(again, tree, f@);
}

/// The text of a failed Quark API answer.
pub open spec fn api_error_text(status: i64, code: i64, message: Seq<char>) -> Seq<char> {
    "quark api error status="@ + crate::num::decimal_int(status as int) + " code="@
        + crate::num::decimal_int(code as int) + ": "@ + message
}

/// `request`'s error for an answer that `api_failed` refuses.
pub fn api_error_message(status: i64, code: i64, message: &str) -> (res: String)
    ensures
        res@ == api_error_text(status, code, message@),
{
    let mut s = String::new();
    crate::text::append(&mut s, "quark api error status=");
    crate::num::push_i64(&mut s, status);
    crate::text::append(&mut s, " code=");
    crate::num::push_i64(&mut s, code);
    crate::text::append(&mut s, ": ");
    crate::text::append(&mut s, message);
    assert(s@ =~= api_error_text(status, code, message@));
    s
}


/// `resolve_dir`'s error when a folder of `path` does not exist and is not to be created.
pub fn dir_not_found_message(path: &str) -> (res: String)
    ensures
        res@ == "directory not found: "@ + path@,
{
    let mut s = String::new();
    crate::text::append(&mut s, "directory not found: ");
    crate::text::append(&mut s, path);
    assert(s@ =~= "directory not found: "@ + path@);
    s
}

/// `resolve_dir`'s error when the folder `name` it created does not show in the listing after.
pub fn dir_not_created_message(name: &str) -> (res: String)
    ensures
        res@ == "created directory did not appear: "@ + name@,
{
    let mut s = String::new();
    crate::text::append(&mut s, "created directory did not appear: ");
    crate::text::append(&mut s, name);
    assert(s@ =~= "created directory did not appear: "@ + name@);
    s
}

} // verus!
