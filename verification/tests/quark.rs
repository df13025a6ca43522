use abucket::drivers::s3;
use abucket::mounts::quark_open::{self, check_client};
use abucket::mounts::system_config::target_from_mount;
use abucket::mounts::{option_string, MountConfig};
use abucket::quark::{
    api_error_message, api_failed, find_entry, first_download_url, more_pages, object_lookup,
    path_segments_exec, split_key, FilePages, QuarkFile, ResolveAction, ResolveDir,
};
use abucket::upload::{commit_auth_meta, commit_xml, oss_url, part_auth_meta, PutAction, PutObject};

fn entry(name: &str, is_file: bool, size: i64) -> QuarkFile {
    QuarkFile { fid: format!("id-{name}"), file_name: name.into(), size, file: is_file, created_at: 0, updated_at: 0 }
}

#[test]
fn keys_and_paths() {
    assert_eq!(split_key("/a/b/c.txt/"), ("a/b".to_string(), "c.txt".to_string()));
    assert_eq!(split_key("c.txt"), (String::new(), "c.txt".to_string()));
    assert_eq!(object_lookup("///"), None);
    assert_eq!(object_lookup("x/y"), Some(("x".to_string(), "y".to_string())));
    assert_eq!(path_segments_exec("/a//b/"), vec!["a", "b"]);
    assert!(path_segments_exec("").is_empty());
}

#[test]
fn listing_lookups() {
    let files = vec![entry("a", true, 1), entry("d", false, 0), entry("d", true, 2), entry("a", false, 0)];
    assert_eq!(find_entry(&files, "d", true), Some(1));
    assert_eq!(find_entry(&files, "a", true), Some(3));
    assert_eq!(find_entry(&files, "a", false), Some(0));
    assert_eq!(find_entry(&files, "x", false), None);
    assert_eq!(first_download_url(&vec!["u1".into(), "u2".into()]), Some("u1".to_string()));
    assert_eq!(first_download_url(&vec!["".into(), "u2".into()]), None);
    assert_eq!(first_download_url(&vec![]), None);
    assert!(api_failed(400, 0) && api_failed(200, 31001) && !api_failed(200, 0));
    assert_eq!(api_error_message(200, -1, "bad"), "quark api error status=200 code=-1: bad");
    assert!(more_pages(1, 100, 101) && !more_pages(2, 100, 200) && !more_pages(1, 100, 0));
}

#[test]
fn paging_one_folder() {
    let mut p = FilePages::new();
    assert_eq!((p.page, p.size), (1, 100));
    assert!(p.absorb(vec![entry("a", true, 1)], 150));
    assert_eq!(p.page, 2);
    assert!(!p.absorb(vec![entry("b", true, 1)], 150));
    assert_eq!(p.files.len(), 2);
}

#[test]
fn resolving_folders() {
    let (mut r, a) = ResolveDir::new("0", "/x/y", true);
    assert!(matches!(a, ResolveAction::List(ref f) if f == "0"));
    let a = r.on_listing(&vec![entry("x", false, 0)]);
    assert!(matches!(a, ResolveAction::List(ref f) if f == "id-x"));
    let a = r.on_listing(&vec![entry("y", true, 0)]);
    assert!(matches!(a, ResolveAction::Mkdir { ref parent, ref name, pause_millis: 1000 } if parent == "id-x" && name == "y"));
    let a = r.on_listing(&vec![entry("z", false, 0)]);
    assert!(matches!(a, ResolveAction::NotCreated(ref n) if n == "y"));

    let (mut r, _) = ResolveDir::new("0", "x", false);
    assert!(matches!(r.on_listing(&vec![]), ResolveAction::NotFound));
    let (_, a) = ResolveDir::new("0", "/", false);
    assert!(matches!(a, ResolveAction::Done(ref f) if f == "0"));
}

#[test]
fn upload_texts() {
    assert_eq!(
        part_auth_meta("text/plain", "D", "bkt", "obj", 2, "up"),
        "PUT\n\ntext/plain\nD\nx-oss-date:D\nx-oss-user-agent:aliyun-sdk-js/6.6.1 Chrome 98.0.4758.80 on Windows 10 64-bit\n/bkt/obj?partNumber=2&uploadId=up"
    );
    assert_eq!(
        commit_auth_meta("M", "D", "CB", "bkt", "obj", "up"),
        "POST\nM\napplication/xml\nD\nx-oss-callback:CB\nx-oss-date:D\nx-oss-user-agent:aliyun-sdk-js/6.6.1 Chrome 98.0.4758.80 on Windows 10 64-bit\n/bkt/obj?uploadId=up"
    );
    assert_eq!(
        commit_xml(&vec!["\"e1\"".into(), "\"e2\"".into()]),
        "<?xml version=\"1.0\" encoding=\"UTF-8\"?>\n<CompleteMultipartUpload>\n<Part>\n<PartNumber>1</PartNumber>\n<ETag>\"e1\"</ETag>\n</Part>\n<Part>\n<PartNumber>2</PartNumber>\n<ETag>\"e2\"</ETag>\n</Part>\n</CompleteMultipartUpload>"
    );
    assert_eq!(oss_url("https://oss.example.com", "b", "k/1"), Some("https://b.oss.example.com/k/1".into()));
    assert_eq!(oss_url("http://h", "b", "k"), Some("https://b.h/k".into()));
    assert_eq!(oss_url("ftp://h", "b", "k"), None);
}

#[test]
fn upload_steps() {
    let size = 2 * 1048576 + 5;
    let (mut u, a) = PutObject::new("/dir/file.bin", size);
    assert!(matches!(a, PutAction::FindObject));
    assert!(matches!(u.on_found(Some(entry("file.bin", true, 1))), PutAction::DeleteFid(ref f) if f == "id-file.bin"));
    assert!(matches!(u.on_deleted(), PutAction::ResolveParent(ref d) if d == "dir"));
    assert!(matches!(u.on_parent("P".into()), PutAction::UploadPre { ref name, ref parent } if name == "file.bin" && parent == "P"));
    assert!(matches!(u.on_pre(false, 1000), PutAction::UpdateHash));
    assert_eq!(u.part_size, 1048576);
    assert!(matches!(u.on_hash(false), PutAction::UploadPart { number: 1, start: 0, end: 1048576 }));
    assert!(matches!(u.on_part("e1".into()), PutAction::UploadPart { number: 2, start: 1048576, end: 2097152 }));
    assert!(matches!(u.on_part("e2".into()), PutAction::UploadPart { number: 3, start: 2097152, end: 2097157 }));
    assert!(matches!(u.on_part("e3".into()), PutAction::Commit));
    assert_eq!(u.etags, vec!["e1", "e2", "e3"]);
    assert!(matches!(u.on_committed(), PutAction::Finish));
    assert!(matches!(u.on_finished(), PutAction::FindObject));
    assert!(matches!(u.on_check(Some(entry("file.bin", true, 3))), PutAction::Sleep { millis: 500 }));
    assert_eq!(u.last.as_deref(), Some("visible with size 3"));
    assert!(matches!(u.on_slept(), PutAction::FindObject));
    assert!(matches!(u.on_check(Some(entry("file.bin", true, size as i64))), PutAction::Done));
    assert_eq!((u.key.as_str(), u.dir.as_str(), u.name.as_str(), u.size), ("/dir/file.bin", "dir", "file.bin", size));
    assert_eq!((u.part_size, u.next_part), (1048576, 3));

    // Quark may already hold the body.
    let (mut u, _) = PutObject::new("k", 0);
    u.on_found(None);
    u.on_parent("0".into());
    assert!(matches!(u.on_pre(true, 0), PutAction::Done));

    // An empty body has no parts; the object that never shows fails after 20 checks.
    let (mut u, _) = PutObject::new("k", 0);
    u.on_found(None);
    u.on_parent("0".into());
    u.on_pre(false, 0);
    assert!(matches!(u.on_hash(false), PutAction::Commit));
    u.on_committed();
    u.on_finished();
    for _ in 0..19 {
        assert!(matches!(u.on_check(None), PutAction::Sleep { millis: 500 }));
        assert!(matches!(u.on_slept(), PutAction::FindObject));
    }
    assert!(matches!(u.on_check(None), PutAction::Sleep { millis: 500 }));
    assert!(matches!(u.on_slept(), PutAction::NotVisible(ref m) if m == "uploaded object is not visible yet: not visible"));
}

fn mount(opts: &[(&str, &str)]) -> MountConfig {
    MountConfig {
        path: "/m".into(),
        root_path: "/".into(),
        options: opts.iter().map(|(k, v)| (k.to_string(), v.to_string())).collect(),
    }
}

#[test]
fn mount_configs() {
    let m = mount(&[("endpoint", "https://s3"), ("bucket", "b"), ("access_key", "A"), ("secret_key", "S"), ("bucket", "later")]);
    assert_eq!(option_string(&m, "bucket"), Some("b".to_string()));
    let c = s3::from_mount(&m).unwrap();
    assert_eq!((c.endpoint.as_str(), c.bucket.as_str(), c.region.as_str()), ("https://s3", "b", "us-east-1"));
    assert!(c.session_token.is_none() && c.proxy.is_none());
    assert!(s3::from_mount(&mount(&[("endpoint", "e"), ("bucket", "b")])).is_none());

    let q = quark_open::from_mount(&mount(&[("refresh_token", " ")])).unwrap();
    assert_eq!(q.root_fid, "0");
    assert_eq!(q.refresh_url, "https://oauth.fnnas.com/api/v1/oauth/refreshToken");
    assert_eq!(check_client(&q, "/quark"), Err("quark_open mount /quark needs options.refresh_token".to_string()));
    let q = quark_open::from_mount(&mount(&[("refresh_token", "r"), ("root_fid", "9")])).unwrap();
    assert_eq!(q.root_fid, "9");
    assert_eq!(check_client(&q, "/quark"), Ok(()));
    assert!(quark_open::from_mount(&mount(&[])).is_none());
    assert_eq!(target_from_mount(&m, "/api/config.yaml").virtual_path, "/api/config.yaml");
}

#[test]
fn resolving_again_reuses_folders() {
    // First walk: `x` is there, `y` is created and shows on the listing after.
    let tree_root = vec![entry("x", false, 0)];
    let tree_x = vec![entry("y", false, 0)];
    let (mut r, a) = ResolveDir::new("0", "x/y", true);
    assert!(matches!(a, ResolveAction::List(ref f) if f == "0"));
    assert!(matches!(r.on_listing(&tree_root), ResolveAction::List(ref f) if f == "id-x"));
    assert!(matches!(r.on_listing(&vec![]), ResolveAction::Mkdir { ref parent, ref name, pause_millis: 1000 } if parent == "id-x" && name == "y"));
    assert!(matches!(r.on_listing(&tree_x), ResolveAction::Done(ref f) if f == "id-y"));
    // Second walk on the same tree, creating or not: no folder is made, same end.
    for create in [true, false] {
        let (mut r, _) = ResolveDir::new("0", "/x/y/", create);
        assert!(matches!(r.on_listing(&tree_root), ResolveAction::List(ref f) if f == "id-x"));
        assert!(matches!(r.on_listing(&tree_x), ResolveAction::Done(ref f) if f == "id-y"));
    }
}
