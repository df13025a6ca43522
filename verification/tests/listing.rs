use abucket::listing::{list_params, paginate, partition, sort_entries, str_lt, Walk};
use abucket::query::parse_query;
use abucket::quark::QuarkFile;
use abucket::xml::{list_xml, missing_folder_list_xml, times_writable_exec};

fn file(name: &str, is_file: bool, size: i64) -> QuarkFile {
    QuarkFile {
        fid: format!("fid-{name}"),
        file_name: name.to_string(),
        size,
        file: is_file,
        created_at: 1_000,
        updated_at: 86_400_000,
    }
}

fn keys(v: &[(String, QuarkFile)]) -> Vec<String> {
    v.iter().map(|e| e.0.clone()).collect()
}

#[test]
fn params_from_query() {
    let p = list_params(&parse_query("prefix=docs%2F&delimiter=%2F&max-keys=0&marker=3"));
    assert_eq!(p.prefix, "docs/");
    assert_eq!(p.delimiter.as_deref(), Some("/"));
    assert_eq!(p.max_keys, 1);
    assert_eq!(p.offset, 3);
    assert_eq!(p.dir_path, "docs");
    assert!(!p.recursive);

    // A continuation token wins over a marker, even when it is not a number.
    let p = list_params(&parse_query("continuation-token=x&marker=7"));
    assert_eq!(p.offset, 0);
    assert_eq!(p.max_keys, 1000);
    assert_eq!(p.prefix, "");
    assert!(p.delimiter.is_none());
    assert!(p.recursive);
    assert_eq!(p.dir_path, "");
}

#[test]
fn walk_and_order() {
    let (mut w, recursive) = (Walk::new("0", "/docs/", true), true);
    assert!(w.recursive == recursive);
    let (fid, base) = w.next_dir().unwrap();
    assert_eq!((fid.as_str(), base.as_str()), ("0", "docs/"));
    w.absorb(&base, &vec![file("b.txt", true, 3), file("sub", false, 0), file("a.txt", true, 1)]);
    let (fid, base) = w.next_dir().unwrap();
    assert_eq!((fid.as_str(), base.as_str()), ("fid-sub", "docs/sub/"));
    w.absorb(&base, &vec![file("c", true, 2)]);
    assert!(w.next_dir().is_none());
    let out = w.finish();
    assert_eq!(keys(&out), vec!["docs/a.txt", "docs/b.txt", "docs/sub/c"]);

    // Without recursion a folder is an entry of its own.
    let mut w = Walk::new("0", "", false);
    let (_, base) = w.next_dir().unwrap();
    w.absorb(&base, &vec![file("z", false, 0), file("y", true, 0)]);
    assert_eq!(keys(&w.finish()), vec!["y", "z"]);
}

#[test]
fn sorting_is_stable_and_by_code_point() {
    let v = vec![
        ("b".to_string(), file("1", true, 1)),
        ("a".to_string(), file("2", true, 2)),
        ("b".to_string(), file("3", true, 3)),
        ("B".to_string(), file("4", true, 4)),
        ("ab".to_string(), file("5", true, 5)),
    ];
    let s = sort_entries(&v);
    assert_eq!(keys(&s), vec!["B", "a", "ab", "b", "b"]);
    assert_eq!(s[3].1.size, 1);
    assert_eq!(s[4].1.size, 3);
    assert!(str_lt("a", "b") && str_lt("", "a") && !str_lt("b", "b") && str_lt("é", "ê"));
}

#[test]
fn pages_cover_the_listing() {
    let entries = vec![
        ("d1".to_string(), file("d1", false, 0)),
        ("f1".to_string(), file("f1", true, 1)),
        ("d2".to_string(), file("d2", false, 0)),
        ("f2".to_string(), file("f2", true, 2)),
        ("f3".to_string(), file("f3", true, 3)),
    ];
    let (objs, prefixes) = partition(&entries);
    assert_eq!(keys(&objs), vec!["f1", "f2", "f3"]);
    assert_eq!(prefixes, vec!["d1/", "d2/"]);

    let mut seen: Vec<String> = Vec::new();
    let mut offset = 0;
    loop {
        let page = paginate(&entries, offset, 2);
        assert!(page.objects.len() + page.common_prefixes.len() <= 2);
        seen.extend(keys(&page.objects));
        seen.extend(page.common_prefixes.clone());
        match page.next_token {
            Some(t) => offset = t,
            None => break,
        }
    }
    assert_eq!(seen, vec!["f1", "f2", "f3", "d1/", "d2/"]);

    let page = paginate(&entries, 2, 2);
    assert_eq!(keys(&page.objects), vec!["f3"]);
    assert_eq!(page.common_prefixes, vec!["d1/"]);
    assert_eq!(page.next_token, Some(4));
    let page = paginate(&entries, 9, 2);
    assert!(page.objects.is_empty() && page.common_prefixes.is_empty() && page.next_token.is_none());
}

#[test]
fn listing_body() {
    let objects = vec![("a&b.txt".to_string(), file("a&b.txt", true, 12))];
    let prefixes = vec!["dir/".to_string()];
    assert!(times_writable_exec(&objects));
    let xml = list_xml("bkt", "p<", Some("/"), 2, Some(2), &objects, &prefixes);
    assert_eq!(
        xml,
        "<?xml version=\"1.0\" encoding=\"UTF-8\"?>\n<ListBucketResult xmlns=\"http://s3.amazonaws.com/doc/2006-03-01/\">\n  <Name>bkt</Name>\n  <Prefix>p&lt;</Prefix>\n  <KeyCount>2</KeyCount>\n  <MaxKeys>2</MaxKeys>\n  <IsTruncated>true</IsTruncated>\n  <NextContinuationToken>2</NextContinuationToken>\n  <NextMarker>2</NextMarker>\n  <Delimiter>/</Delimiter>\n  <Contents><Key>a&amp;b.txt</Key><LastModified>1970-01-02T00:00:00Z</LastModified><Size>12</Size><StorageClass>STANDARD</StorageClass></Contents>\n  <CommonPrefixes><Prefix>dir/</Prefix></CommonPrefixes>\n</ListBucketResult>"
    );
    let empty = list_xml("bkt", "", None, 1000, None, &Vec::new(), &Vec::new());
    assert!(empty.contains("<KeyCount>0</KeyCount>") && empty.contains("<IsTruncated>false</IsTruncated>"));
    assert!(!empty.contains("Delimiter"));
    let far = vec![("k".to_string(), QuarkFile { updated_at: i64::MAX, ..file("k", true, 0) })];
    assert!(!times_writable_exec(&far));
}

#[test]
fn missing_folder_lists_nothing() {
    let params = list_params(&parse_query("prefix=no%2Fsuch%2F&delimiter=%2F&max-keys=5"));
    let xml = missing_folder_list_xml("bkt", &params);
    assert_eq!(xml, list_xml("bkt", "no/such/", Some("/"), 5, None, &Vec::new(), &Vec::new()));
    assert!(xml.contains("<KeyCount>0</KeyCount>") && xml.contains("<Prefix>no/such/</Prefix>"));
}
