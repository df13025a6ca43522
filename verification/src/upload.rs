//! `put_object` on Quark: the order of the upload requests, the parts of the body, and the texts
//! that the object-storage requests are signed and sent with.

use vstd::prelude::*;
use crate::num::{decimal, push_u64};
use crate::quark::{QuarkFile, split_key, split_key_spec};
use crate::text::{append, chars_of, starts_with, starts_with_exec, string_of_range, views};

verus! {

pub open spec fn oss_agent() -> Seq<char> {
    "x-oss-user-agent:aliyun-sdk-js/6.6.1 Chrome 98.0.4758.80 on Windows 10 64-bit"@
}

/// The text that authorises uploading part `part_number` (`upload_part`'s `auth_meta`).
pub open spec fn part_auth_meta_spec(
    content_type: Seq<char>,
    date: Seq<char>,
    bucket: Seq<char>,
    obj_key: Seq<char>,
    part_number: usize,
    upload_id: Seq<char>,
) -> Seq<char> {
    "PUT\n\n"@ + content_type + "\n"@ + date + "\nx-oss-date:"@ + date + "\n"@ + oss_agent() + "\n/"@
        + bucket + "/"@ + obj_key + "?partNumber="@ + decimal(part_number as nat) + "&uploadId="@
        + upload_id
}

pub fn part_auth_meta(
    content_type: &str,
    date: &str,
    bucket: &str,
    obj_key: &str,
    part_number: usize,
    upload_id: &str,
) -> (res: String)
    ensures
        res@ == part_auth_meta_spec(content_type@, date@, bucket@, obj_key@, part_number, upload_id@),
{
    let mut s = String::new();
    append(&mut s, "PUT\n\n");
    append(&mut s, content_type);
    append(&mut s, "\n");
    append(&mut s, date);
    append(&mut s, "\nx-oss-date:");
    append(&mut s, date);
    append(&mut s, "\n");
    append(&mut s, "x-oss-user-agent:aliyun-sdk-js/6.6.1 Chrome 98.0.4758.80 on Windows 10 64-bit");
    append(&mut s, "\n/");
    append(&mut s, bucket);
    append(&mut s, "/");
    append(&mut s, obj_key);
    append(&mut s, "?partNumber=");
    push_u64(&mut s, part_number as u64);
    append(&mut s, "&uploadId=");
    append(&mut s, upload_id);
    assert(s@ =~= part_auth_meta_spec(content_type@, date@, bucket@, obj_key@, part_number, upload_id@));
    s
}

/// The text that authorises completing the upload (`upload_commit`'s `auth_meta`).
pub open spec fn commit_auth_meta_spec(
    content_md5: Seq<char>,
    date: Seq<char>,
    callback: Seq<char>,
    bucket: Seq<char>,
    obj_key: Seq<char>,
    upload_id: Seq<char>,
) -> Seq<char> {
    "POST\n"@ + content_md5 + "\napplication/xml\n"@ + date + "\nx-oss-callback:"@ + callback
        + "\nx-oss-date:"@ + date + "\n"@ + oss_agent() + "\n/"@ + bucket + "/"@ + obj_key
        + "?uploadId="@ + upload_id
}

pub fn commit_auth_meta(
    content_md5: &str,
    date: &str,
    callback: &str,
    bucket: &str,
    obj_key: &str,
    upload_id: &str,
) -> (res: String)
    ensures
        res@ == commit_auth_meta_spec(content_md5@, date@, callback@, bucket@, obj_key@, upload_id@),
{
    let mut s = String::new();
    append(&mut s, "POST\n");
    append(&mut s, content_md5);
    append(&mut s, "\napplication/xml\n");
    append(&mut s, date);
    append(&mut s, "\nx-oss-callback:");
    append(&mut s, callback);
    append(&mut s, "\nx-oss-date:");
    append(&mut s, date);
    append(&mut s, "\n");
    append(&mut s, "x-oss-user-agent:aliyun-sdk-js/6.6.1 Chrome 98.0.4758.80 on Windows 10 64-bit");
    append(&mut s, "\n/");
    append(&mut s, bucket);
    append(&mut s, "/");
    append(&mut s, obj_key);
    append(&mut s, "?uploadId=");
    append(&mut s, upload_id);
    assert(s@ =~= commit_auth_meta_spec(content_md5@, date@, callback@, bucket@, obj_key@, upload_id@));
    s
}

/// The `<Part>` entries of the parts' ETags, numbered from 1.
pub open spec fn part_entries(etags: Seq<Seq<char>>) -> Seq<char>
    decreases etags.len(),
{
    if etags.len() == 0 {
        Seq::empty()
    } else {
        part_entries(etags.drop_last()) + "<Part>\n<PartNumber>"@ + decimal(etags.len())
            + "</PartNumber>\n<ETag>"@ + etags.last() + "</ETag>\n</Part>\n"@
    }
}

/// The body of `CompleteMultipartUpload`.
pub open spec fn commit_xml_spec(etags: Seq<Seq<char>>) -> Seq<char> {
    "<?xml version=\"1.0\" encoding=\"UTF-8\"?>\n<CompleteMultipartUpload>\n"@ + part_entries(etags)
        + "</CompleteMultipartUpload>"@
}

pub fn commit_xml(etags: &Vec<String>) -> (res: String)
    ensures
        res@ == commit_xml_spec(views(etags@)),
{
    let mut s = String::new();
    append(&mut s, "<?xml version=\"1.0\" encoding=\"UTF-8\"?>\n<CompleteMultipartUpload>\n");
    let ghost head = s@;
    let mut i: usize = 0;
    assert(views(etags@).take(0) =~= Seq::<Seq<char>>::empty());
    while i < etags.len()
        invariant
            i <= etags.len(),
            s@ == head + part_entries(views(etags@).take(i as int)),
        decreases etags.len() - i,
    {
        let ghost t = views(etags@).take(i + 1);
        assert(t.drop_last() == views(etags@).take(i as int));
        assert(t.last() == etags@[i as int]@);
        append(&mut s, "<Part>\n<PartNumber>");
        push_u64(&mut s, (i + 1) as u64);
        append(&mut s, "</PartNumber>\n<ETag>");
        append(&mut s, etags[i].as_str());
        append(&mut s, "</ETag>\n</Part>\n");
        i += 1;
        assert(s@ =~= head + part_entries(views(etags@).take(i as int)));
    }
    assert(views(etags@).take(etags.len() as int) == views(etags@));
    append(&mut s, "</CompleteMultipartUpload>");
    assert(s@ =~= commit_xml_spec(views(etags@)));
    s
}

/// Where an upload's parts go: `https://{bucket}.{host}/{obj_key}`, the host being the upload URL
/// without its `https://` or `http://`; `None` for another URL (`unexpected upload_url`).
pub open spec fn oss_url_spec(upload_url: Seq<char>, bucket: Seq<char>, obj_key: Seq<char>) -> Option<
    Seq<char>,
> {
    let host = if starts_with(upload_url, "https://"@) {
        Some(upload_url.skip(8))
    } else if starts_with(upload_url, "http://"@) {
        Some(upload_url.skip(7))
    } else {
        None
    };
    match host {
        Some(h) => Some("https://"@ + bucket + "."@ + h + "/"@ + obj_key),
        None => None,
    }
}

/// `oss_url`.
pub fn oss_url(upload_url: &str, bucket: &str, obj_key: &str) -> (res: Option<String>)
    ensures
        match res {
            Some(u) => oss_url_spec(upload_url@, bucket@, obj_key@) == Some(u@),
            None => oss_url_spec(upload_url@, bucket@, obj_key@) is None,
        },
{
    proof {
        reveal_strlit("https://");
        reveal_strlit("http://");
    }
    let cs = chars_of(upload_url);
    let host = if starts_with_exec(upload_url, "https://") {
        string_of_range(&cs, 8, cs.len())
    } else if starts_with_exec(upload_url, "http://") {
        string_of_range(&cs, 7, cs.len())
    } else {
        return None;
    };
    let mut s = String::new();
    append(&mut s, "https://");
    append(&mut s, bucket);
    append(&mut s, ".");
    append(&mut s, host.as_str());
    append(&mut s, "/");
    append(&mut s, obj_key);
    assert(s@ =~= "https://"@ + bucket@ + "."@ + host@ + "/"@ + obj_key@);
    Some(s)
}

/// The smallest part size: 1 MiB.
pub open spec fn min_part() -> usize {
    1048576
}

/// The part size that an upload uses: Quark's, but at least 1 MiB.
pub open spec fn effective_part_size(quark_part_size: usize) -> usize {
    if quark_part_size >= min_part() {
        quark_part_size
    } else {
        min_part()
    }
}

/// The number of parts of `size` bytes in parts of `part` bytes (`chunks(part).count()`).
pub open spec fn part_count(size: nat, part: nat) -> nat {
    if part == 0 {
        0
    } else {
        ((size + part - 1) / part as int) as nat
    }
}

/// The bytes `[start, end)` of part `i` (from 0).
pub open spec fn part_range(size: nat, part: nat, i: nat) -> (nat, nat) {
    let start = i * part;
    let end = if start + part <= size {
        start + part
    } else {
        size
    };
    (start, end)
}

/// Where an upload stands.
#[derive(PartialEq, Eq, Structural)]
pub enum PutStage {
    Lookup,
    Delete,
    Parent,
    Pre,
    Hash,
    Parts,
    Commit,
    Finish,
    Check,
    Wait,
    Done,
    Failed,
}

/// What an upload asks next of the Quark client.
pub enum PutAction {
    /// Look the key up (`find_object`).
    FindObject,
    /// Delete the object that the key held.
    DeleteFid(String),
    /// Resolve the key's folder, creating folders (`resolve_dir(dir, true)`).
    ResolveParent(String),
    /// Announce the upload of `name` into the folder `parent` (`/file/upload/pre`).
    UploadPre { name: String, parent: String },
    /// Send the body's MD5 and SHA-1 (`/file/update/hash`).
    UpdateHash,
    /// Upload part `number` (from 1): the body's bytes `[start, end)`.
    UploadPart { number: usize, start: usize, end: usize },
    /// Complete the multipart upload with the parts' ETags.
    Commit,
    /// Finish the upload (`/file/upload/finish`).
    Finish,
    /// Wait `millis` milliseconds, then report back.
    Sleep { millis: u64 },
    /// The object is stored.
    Done,
    /// The object did not show; the text of the error.
    NotVisible(String),
}

/// The error after the last visibility check.
pub open spec fn not_visible_text(last: Option<String>) -> Seq<char> {
    "uploaded object is not visible yet: "@ + match last {
        Some(l) => l@,
        None => "unknown"@,
    }
}

/// `put_object` and `wait_until_visible`: the steps of one upload.
pub struct PutObject {
    pub key: String,
    pub dir: String,
    pub name: String,
    /// The body's length.
    pub size: usize,
    pub part_size: usize,
    /// Parts uploaded so far.
    pub next_part: usize,
    pub etags: Vec<String>,
    /// Visibility checks made.
    pub attempts: u32,
    /// What the last visibility check saw.
    pub last: Option<String>,
    pub stage: PutStage,
}

impl PutObject {
    /// The upload's invariant: parts go in order and no further than the body; at most 20
    /// visibility checks are made.
    pub open spec fn wf(&self) -> bool {
        &&& self.etags@.len() == self.next_part
        &&& (self.stage == PutStage::Parts ==> self.part_size >= min_part() && self.next_part
            < part_count(self.size as nat, self.part_size as nat))
        &&& (self.stage == PutStage::Commit || self.stage == PutStage::Finish || self.stage
            == PutStage::Check || self.stage == PutStage::Wait) ==> self.part_size >= min_part()
            && self.next_part == part_count(self.size as nat, self.part_size as nat)
        &&& self.attempts <= 20
        &&& (self.stage == PutStage::Wait ==> self.attempts >= 1)
    }

    /// The action of the stage `Parts`: the next part.
    pub open spec fn part_action(&self) -> PutAction {
        let r = part_range(self.size as nat, self.part_size as nat, self.next_part as nat);
        PutAction::UploadPart { number: (self.next_part + 1) as usize, start: r.0 as usize, end: r.1 as usize }
    }

    /// `self` is the same upload as `other`: the same key, folder, name and body length.
    pub open spec fn same_upload(&self, other: PutObject) -> bool {
        &&& self.key == other.key
        &&& self.dir == other.dir
        &&& self.name == other.name
        &&& self.size == other.size
    }

    /// `self` has the parts of `other`: the same part size, and the same parts uploaded.
    pub open spec fn same_parts(&self, other: PutObject) -> bool {
        &&& self.part_size == other.part_size
        &&& self.next_part == other.next_part
        &&& self.etags == other.etags
    }

    /// An upload of `size` bytes to `key`: first the key is looked up.
    pub fn new(key: &str, size: usize) -> (res: (PutObject, PutAction))
        ensures
            res.0.wf(),
            res.0.key@ == key@,
            (res.0.dir@, res.0.name@) == split_key_spec(key@),
            res.0.size == size,
            res.0.stage == PutStage::Lookup,
            res.0.next_part == 0,
            res.0.attempts == 0,
            res.1 == PutAction::FindObject,
    {
        let (dir, name) = split_key(key);
        (
            PutObject {
                key: key.to_owned(),
                dir,
                name,
                size,
                part_size: 1048576,
                next_part: 0,
                etags: Vec::new(),
                attempts: 0,
                last: None,
                stage: PutStage::Lookup,
            },
            PutAction::FindObject,
        )
    }

    /// The key held `found`: an existing object is deleted first; then the folder is resolved.
    pub fn on_found(&mut self, found: Option<QuarkFile>) -> (res: PutAction)
        requires
            old(self).wf(),
            old(self).stage == PutStage::Lookup,
        ensures
            final(self).wf(),
            match found {
                Some(f) => final(self).stage == PutStage::Delete && res == PutAction::DeleteFid(
                    f.fid,
                ),
                None => final(self).stage == PutStage::Parent && res == PutAction::ResolveParent(
                    old(self).dir,
                ),
            },
            final(self).size == old(self).size && final(self).next_part == old(self).next_part,
            final(self).same_upload(*old(self)) && final(self).same_parts(*old(self)),
    {
        match found {
            Some(f) => {
                self.stage = PutStage::Delete;
                PutAction::DeleteFid(f.fid)
            },
            None => {
                self.stage = PutStage::Parent;
                PutAction::ResolveParent(self.dir.clone())
            },
        }
    }

    /// The old object is deleted: the folder is resolved.
    pub fn on_deleted(&mut self) -> (res: PutAction)
        requires
            old(self).wf(),
            old(self).stage == PutStage::Delete,
        ensures
            final(self).wf(),
            final(self).stage == PutStage::Parent,
            res == PutAction::ResolveParent(old(self).dir),
            final(self).size == old(self).size && final(self).next_part == old(self).next_part,
            final(self).same_upload(*old(self)) && final(self).same_parts(*old(self)),
    {
        self.stage = PutStage::Parent;
        PutAction::ResolveParent(self.dir.clone())
    }

    /// The folder is `parent`: the upload is announced.
    pub fn on_parent(&mut self, parent: String) -> (res: PutAction)
        requires
            old(self).wf(),
            old(self).stage == PutStage::Parent,
        ensures
            final(self).wf(),
            final(self).stage == PutStage::Pre,
            res == (PutAction::UploadPre { name: old(self).name, parent }),
            final(self).size == old(self).size && final(self).next_part == old(self).next_part,
            final(self).same_upload(*old(self)) && final(self).same_parts(*old(self)),
    {
        self.stage = PutStage::Pre;
        PutAction::UploadPre { name: self.name.clone(), parent }
    }

    /// Quark answered the announcement: an upload it already finished is done; otherwise the
    /// hashes are sent, and parts will be `quark_part_size` bytes, at least 1 MiB.
    pub fn on_pre(&mut self, finish: bool, quark_part_size: usize) -> (res: PutAction)
        requires
            old(self).wf(),
            old(self).stage == PutStage::Pre,
        ensures
            final(self).wf(),
            finish ==> final(self).stage == PutStage::Done && res == PutAction::Done,
            !finish ==> final(self).stage == PutStage::Hash && res == PutAction::UpdateHash
                && final(self).part_size == effective_part_size(quark_part_size),
            final(self).size == old(self).size && final(self).next_part == old(self).next_part,
            final(self).same_upload(*old(self)) && final(self).next_part == old(self).next_part && final(self).etags == old(self).etags,
    {
        if finish {
            self.stage = PutStage::Done;
            return PutAction::Done;
        }
        self.part_size = if quark_part_size >= 1048576 {
            quark_part_size
        } else {
            1048576
        };
        self.stage = PutStage::Hash;
        PutAction::UpdateHash
    }

    /// The next part to upload, or the commit when all are up.
    fn next_step(&mut self) -> (res: PutAction)
        requires
            old(self).etags@.len() == old(self).next_part,
            old(self).part_size >= min_part(),
            old(self).next_part <= part_count(old(self).size as nat, old(self).part_size as nat),
            old(self).attempts <= 20,
        ensures
            final(self).wf(),
            final(self).same_upload(*old(self)),
            final(self).same_parts(*old(self)),
            if old(self).next_part < part_count(old(self).size as nat, old(self).part_size as nat) {
                final(self).stage == PutStage::Parts && res == final(self).part_action()
            } else {
                final(self).stage == PutStage::Commit && res == PutAction::Commit
            },
    {
        let ps = self.part_size;
        let size = self.size;
        let i = self.next_part;
        assert(size / ps < usize::MAX) by (nonlinear_arith)
            requires
                ps >= 2,
                size <= usize::MAX,
        ;
        let count = size / ps + if size % ps == 0 {
            0
        } else {
            1
        };
        assert(count == part_count(size as nat, ps as nat)) by (nonlinear_arith)
            requires
                ps >= 1,
                count == size / ps + (if size % ps == 0 {
                    0int
                } else {
                    1int
                }),
        ;
        if i < count {
            assert(i * ps < size) by (nonlinear_arith)
                requires
                    ps >= 1,
                    i < count,
                    count == size / ps + (if size % ps == 0 {
                        0int
                    } else {
                        1int
                    }),
            ;
            let start = i * ps;
            let end = if size - start >= ps {
                start + ps
            } else {
                size
            };
            self.stage = PutStage::Parts;
            PutAction::UploadPart { number: i + 1, start, end }
        } else {
            self.stage = PutStage::Commit;
            PutAction::Commit
        }
    }

    /// Quark answered the hashes: a body it already holds is done; otherwise the parts go up.
    pub fn on_hash(&mut self, finish: bool) -> (res: PutAction)
        requires
            old(self).wf(),
            old(self).stage == PutStage::Hash,
            old(self).next_part == 0,
            old(self).part_size >= min_part(),
        ensures
            final(self).wf(),
            finish ==> final(self).stage == PutStage::Done && res == PutAction::Done,
            !finish ==> if 0 < part_count(old(self).size as nat, old(self).part_size as nat) {
                final(self).stage == PutStage::Parts && res == final(self).part_action()
            } else {
                final(self).stage == PutStage::Commit && res == PutAction::Commit
            },
            final(self).size == old(self).size && final(self).next_part == old(self).next_part
                && final(self).part_size == old(self).part_size,
            final(self).same_upload(*old(self)) && final(self).same_parts(*old(self)),
    {
        if finish {
            self.stage = PutStage::Done;
            return PutAction::Done;
        }
        self.next_step()
    }

    /// Part `next_part + 1` is up with ETag `etag`: the next part, or the commit.
    pub fn on_part(&mut self, etag: String) -> (res: PutAction)
        requires
            old(self).wf(),
            old(self).stage == PutStage::Parts,
        ensures
            final(self).wf(),
            final(self).etags@ == old(self).etags@.push(etag),
            final(self).next_part == old(self).next_part + 1,
            if final(self).next_part < part_count(old(self).size as nat, old(self).part_size as nat) {
                final(self).stage == PutStage::Parts && res == final(self).part_action()
            } else {
                final(self).stage == PutStage::Commit && res == PutAction::Commit
            },
            final(self).size == old(self).size && final(self).part_size == old(self).part_size,
            final(self).same_upload(*old(self)),
    {
        assert(part_count(self.size as nat, self.part_size as nat) <= self.size) by (nonlinear_arith)
            requires
                self.part_size >= 1,
                part_count(self.size as nat, self.part_size as nat) == (self.size + self.part_size - 1) / self.part_size as int,
        ;
        self.etags.push(etag);
        self.next_part = self.next_part + 1;
        self.next_step()
    }

    /// The upload is committed: it is finished.
    pub fn on_committed(&mut self) -> (res: PutAction)
        requires
            old(self).wf(),
            old(self).stage == PutStage::Commit,
        ensures
            final(self).wf(),
            final(self).stage == PutStage::Finish,
            res == PutAction::Finish,
            final(self).attempts == old(self).attempts,
            final(self).same_upload(*old(self)) && final(self).same_parts(*old(self)),
    {
        self.stage = PutStage::Finish;
        PutAction::Finish
    }

    /// The upload is finished: the key is looked up until the object shows.
    pub fn on_finished(&mut self) -> (res: PutAction)
        requires
            old(self).wf(),
            old(self).stage == PutStage::Finish,
        ensures
            final(self).wf(),
            final(self).stage == PutStage::Check,
            final(self).attempts == 0,
            res == PutAction::FindObject,
            final(self).same_upload(*old(self)) && final(self).same_parts(*old(self)),
    {
        self.stage = PutStage::Check;
        self.attempts = 0;
        self.last = None;
        PutAction::FindObject
    }

    /// A visibility check found `found`: a file of the body's size ends the upload; anything
    /// else is remembered and checked again after a pause of 500 ms.
    pub fn on_check(&mut self, found: Option<QuarkFile>) -> (res: PutAction)
        requires
            old(self).wf(),
            old(self).stage == PutStage::Check,
            old(self).attempts < 20,
        ensures
            final(self).wf(),
            match found {
                Some(f) => if f.file && f.size == old(self).size as i64 {
                    final(self).stage == PutStage::Done && res == PutAction::Done
                } else {
                    &&& final(self).stage == PutStage::Wait
                    &&& res == (PutAction::Sleep { millis: 500 })
                    &&& final(self).last matches Some(l) && l@ == "visible with size "@
                        + crate::num::decimal_int(f.size as int)
                },
                None => {
                    &&& final(self).stage == PutStage::Wait
                    &&& res == (PutAction::Sleep { millis: 500 })
                    &&& final(self).last matches Some(l) && l@ == "not visible"@
                },
            },
            final(self).stage == PutStage::Wait ==> final(self).attempts == old(self).attempts + 1,
            final(self).same_upload(*old(self)) && final(self).same_parts(*old(self)),
    {
        match found {
            Some(f) => {
                if f.file && f.size == self.size as i64 {
                    self.stage = PutStage::Done;
                    return PutAction::Done;
                }
                let mut l = String::new();
                append(&mut l, "visible with size ");
                crate::num::push_i64(&mut l, f.size);
                assert(l@ =~= "visible with size "@ + crate::num::decimal_int(f.size as int));
                self.last = Some(l);
            },
            None => {
                self.last = Some("not visible".to_owned());
            },
        }
        self.attempts = self.attempts + 1;
        self.stage = PutStage::Wait;
        PutAction::Sleep { millis: 500 }
    }

    /// The pause after a failed check is over: another check, or after 20 checks the error.
    pub fn on_slept(&mut self) -> (res: PutAction)
        requires
            old(self).wf(),
            old(self).stage == PutStage::Wait,
        ensures
            final(self).wf(),
            old(self).attempts < 20 ==> final(self).stage == PutStage::Check && res
                == PutAction::FindObject,
            old(self).attempts >= 20 ==> final(self).stage == PutStage::Failed && (
            res matches PutAction::NotVisible(m) && m@ == not_visible_text(old(self).last)),
            final(self).attempts == old(self).attempts,
            final(self).same_upload(*old(self)) && final(self).same_parts(*old(self)),
    {
        if self.attempts < 20 {
            self.stage = PutStage::Check;
            return PutAction::FindObject;
        }
        let mut m = String::new();
        append(&mut m, "uploaded object is not visible yet: ");
        match &self.last {
            Some(l) => append(&mut m, l.as_str()),
            None => append(&mut m, "unknown"),
        }
        self.stage = PutStage::Failed;
        PutAction::NotVisible(m)
    }
}

/// Parts tile the body: part 0 starts at 0, each part ends where the next starts, the last ends
/// at the body's end, and none is empty or longer than the part size.
pub proof fn law_parts_tile_body(size: nat, part: nat, i: nat)
    requires
        part >= 1,
        i < part_count(size, part),
    ensures
        part_range(size, part, 0).0 == 0,
        part_range(size, part, i).0 < part_range(size, part, i).1 <= size,
        part_range(size, part, i).1 - part_range(size, part, i).0 <= part,
        i + 1 < part_count(size, part) ==> part_range(size, part, i).1 == part_range(
            size,
            part,
            i + 1,
        ).0,
        i + 1 == part_count(size, part) ==> part_range(size, part, i).1 == size,
{
    let c = part_count(size, part);
    assert(c * part >= size && (c - 1) * part < size) by (nonlinear_arith)
        requires
            part >= 1,
            c == (size + part - 1) / part as int,
            c >= 1,
    ;
    assert(i * part < size) by (nonlinear_arith)
        requires
            i < c,
            (c - 1) * part < size,
            part >= 1,
    ;
    assert((i + 1) * part == i * part + part) by (nonlinear_arith);
    if i + 1 < c {
        assert((i + 1) * part <= (c - 1) * part) by (nonlinear_arith)
            requires
                i + 1 <= c - 1,
                part >= 1,
        ;
    } else {
        assert(i * part + part >= size) by (nonlinear_arith)
            requires
                i + 1 == c,
                c * part >= size,
        ;
    }
}


/// The ETag of an uploaded part: the answer's `ETag` header when it is readable text, else empty.
pub fn part_etag(header: Option<&str>) -> (res: String)
    ensures
        res@ == (match header {
            Some(h) => h@,
            None => Seq::<char>::empty(),
        }),
{
    match header {
        Some(h) => h.to_owned(),
        None => String::new(),
    }
}

/// The error of an object-storage request (`upload part` or `commit`) that answered the status
/// `status` (its code and reason) with the body `body`: `oss {what} failed {status}: {body}`.
pub fn oss_failure_message(what: &str, status: &str, body: &str) -> (res: String)
    ensures
        res@ == "oss "@ + what@ + " failed "@ + status@ + ": "@ + body@,
{
    let mut s = String::new();
    append(&mut s, "oss ");
    append(&mut s, what);
    append(&mut s, " failed ");
    append(&mut s, status);
    append(&mut s, ": ");
    append(&mut s, body);
    assert(s@ =~= "oss "@ + what@ + " failed "@ + status@ + ": "@ + body@);
    s
}

} // verus!
