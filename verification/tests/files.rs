use sbx_server::files::{
    entry_json, fs_error, handle_delete, handle_list, handle_mkdir, handle_read, handle_stat, handle_write,
    home_failed, is_a_directory, require_path, seek_failed, truncate_failed, wants_recursive, written_reply,
    EntryMeta, FsErrorKind, ListEntry, Target,
};
use sbx_server::fsutil::FileKind;
use sbx_server::http::{parse_head, Request};
use sbx_server::json::print_doc;
use sbx_server::response::{Reply, ResponseWriter};
use sbx_server::sandboxes::{Confinement, SandboxEntry};
use sbx_server::strmap::StrMap;

fn get(query: &str) -> Request {
    parse_head(format!("GET /f?{query} HTTP/1.1\r\n\r\n").as_bytes()).unwrap()
}

fn shown(r: Reply) -> (u16, String) {
    (r.status, print_doc(&r.body))
}

fn error(status: u16, message: &str) -> (u16, String) {
    (status, format!("{{\"error\":\"{message}\"}}"))
}

fn sandbox() -> SandboxEntry {
    SandboxEntry {
        id: "ab".to_string(),
        uid: 20_001,
        home: "/sbx/homes/ab".to_string(),
        created_at_ms: 0,
        env: StrMap::new(),
        max_procs: 1,
        max_mem_mb: 1,
        token: "t".to_string(),
        confinement: Confinement::UidOnly,
        last_activity_ms: 0,
        idle_timeout_ms: 0,
    }
}

fn meta(kind: FileKind, size: u64) -> EntryMeta {
    EntryMeta { kind, size, mtime_ms: Some(9), mode: 0o100644 }
}

fn file(path: &str) -> ListEntry {
    ListEntry { path: path.to_string(), meta: meta(FileKind::File, 1) }
}

fn names(body: &str) -> Vec<String> {
    body.split("\"name\":\"").skip(1).map(|s| s.split('"').next().unwrap().to_string()).collect()
}

#[test]
fn a_path_is_direct_or_beneath_a_home() {
    match require_path(&get("path=/etc/../x"), None) {
        Ok(t) => {
            assert_eq!(t.display(), "/etc/../x");
            assert!(matches!(t, Target::Direct(p) if p == "/etc/../x"));
        }
        Err(_) => panic!(),
    }
    match require_path(&get("path=/etc/../../x"), Some(&sandbox())) {
        Ok(t) => {
            assert_eq!(t.display(), "/sbx/homes/ab/x");
            assert!(matches!(t, Target::Scoped(root, rel) if root.uid == 20_001 && rel == "x"));
        }
        Err(_) => panic!(),
    }
    for query in ["path=", "p=1", ""] {
        match require_path(&get(query), None) {
            Ok(_) => panic!(),
            Err(r) => assert_eq!(shown(r), error(400, "missing 'path' query parameter")),
        }
    }
}

#[test]
fn errors_of_the_file_system_are_told() {
    assert_eq!(
        shown(fs_error("open", "/a", FsErrorKind::Link, "x")),
        error(400, "cannot open /a: a path component is a symlink, which this API does not follow")
    );
    assert_eq!(shown(fs_error("open", "/a", FsErrorKind::NotFound, "x")), error(404, "no such path: /a"));
    assert_eq!(shown(fs_error("open", "/a", FsErrorKind::Other, "x")), error(400, "cannot open /a: x"));
    assert_eq!(shown(home_failed("x")), error(500, "cannot open sandbox home: x"));
    assert_eq!(shown(is_a_directory("/a")), error(409, "is a directory: /a"));
    assert_eq!(shown(seek_failed("/a", "x")), error(400, "cannot seek in /a: x"));
    assert_eq!(shown(truncate_failed("/a", 7, "x")), error(400, "cannot truncate /a to 7: x"));
}

fn range(query: &str, size: u64) -> (u64, u64) {
    let mut resp = ResponseWriter::new(false);
    let d = handle_read(&get(query), size, &mut resp);
    assert_eq!(d.remaining, d.length);
    (d.offset, d.length)
}

#[test]
fn a_read_stays_in_the_file() {
    assert_eq!(range("path=x", 10), (0, 10));
    assert_eq!(range("path=x&offset=4", 10), (4, 6));
    assert_eq!(range("path=x&offset=4&length=3", 10), (4, 3));
    assert_eq!(range("path=x&offset=4&length=30", 10), (4, 6));
    assert_eq!(range("path=x&offset=14&length=30", 10), (14, 0));
    assert_eq!(range("path=x&offset=-1&length=z", 10), (0, 10));
    assert_eq!(range("path=x&offset=%2B2", 10), (2, 8));
}

#[test]
fn a_file_is_sent_whole_or_the_connection_is_closed() {
    let mut resp = ResponseWriter::new(true);
    let mut d = handle_read(&get("path=x"), 5, &mut resp);
    assert_eq!(
        resp.flush(),
        b"HTTP/1.1 200 OK\r\nContent-Type: application/octet-stream\r\nConnection: keep-alive\r\nContent-Length: 5\r\n\r\n"
            .to_vec()
    );
    assert_eq!(d.want(), 5);
    assert!(d.took(b"abc", &mut resp));
    assert!(d.finish().is_err());
    assert!(!d.took(b"", &mut resp));
    assert!(!d.took(b"de", &mut resp));
    assert_eq!(resp.flush(), b"abcde".to_vec());
    assert_eq!(d.finish(), Ok(()));
    let big = handle_read(&get("path=x"), 1 << 40, &mut resp);
    assert_eq!(big.want(), 256 * 1024);
}

#[test]
fn a_write_is_planned() {
    let p = handle_write(&get("path=x&mode=755&offset=5&truncate_to=9&mkdir=0"));
    assert_eq!((p.mkdir, p.mode, p.offset, p.truncate_to), (false, Some(0o755), Some(5), Some(9)));
    let p = handle_write(&get("path=x&mode=9&offset=a"));
    assert_eq!((p.mkdir, p.mode, p.offset, p.truncate_to), (true, None, None, None));
    assert_eq!(shown(written_reply("/a", 3)), (200, r#"{"path":"/a","size":3}"#.to_string()));
}

#[test]
fn entries_are_described() {
    assert_eq!(
        print_doc(&entry_json("/a/b", meta(FileKind::File, 5))),
        r#"{"mode":"644","mtime_ms":9,"name":"b","path":"/a/b","size":5,"type":"file"}"#
    );
    let dir = EntryMeta { kind: FileKind::Directory, size: 0, mtime_ms: None, mode: 0o41777 };
    assert_eq!(
        shown(handle_stat("/", dir)),
        (200, r#"{"mode":"1777","mtime_ms":null,"name":"","path":"/","size":0,"type":"dir"}"#.to_string())
    );
    assert!(print_doc(&entry_json("l", meta(FileKind::Symlink, 1))).contains(r#""type":"symlink""#));
    assert!(print_doc(&entry_json("p", meta(FileKind::Other, 1))).contains(r#""type":"file""#));
}

#[test]
fn a_listing_goes_on_where_it_ended() {
    let entries = vec![file("/d/c"), file("/d/a"), file("/d/B"), file("/d/b"), file("/d/aa")];
    let (status, all) = shown(handle_list(&get("path=/d"), &entries));
    assert_eq!(status, 200);
    assert_eq!(names(&all), ["B", "a", "aa", "b", "c"]);
    assert!(all.contains(r#""next":null,"truncated":false"#));
    let (_, first) = shown(handle_list(&get("path=/d&limit=2"), &entries));
    assert_eq!(names(&first), ["B", "a"]);
    assert!(first.contains(r#""next":"a","truncated":true"#));
    let (_, second) = shown(handle_list(&get("path=/d&limit=2&after=a"), &entries));
    assert_eq!(names(&second), ["aa", "b"]);
    let (_, third) = shown(handle_list(&get("path=/d&limit=2&after=b"), &entries));
    assert_eq!(names(&third), ["c"]);
    assert!(third.contains(r#""next":null,"truncated":false"#));
    let (_, none) = shown(handle_list(&get("path=/d&limit=0"), &entries));
    assert_eq!(none, r#"{"entries":[],"next":null,"truncated":true}"#);
}

#[test]
fn entries_of_one_name_stay_in_their_order() {
    let entries = vec![file("/y/n"), file("/x/n"), file("/z/a"), file("/w/n")];
    let (_, all) = shown(handle_list(&get("path=/d"), &entries));
    let paths: Vec<&str> = all.split("\"path\":\"").skip(1).map(|s| s.split('"').next().unwrap()).collect();
    assert_eq!(paths, ["/z/a", "/y/n", "/x/n", "/w/n"]);
}

#[test]
fn a_directory_is_not_shown_beyond_the_limit() {
    let entries: Vec<ListEntry> = (0..10_001).map(|i| file(&format!("/d/{i:05}"))).collect();
    let (_, page) = shown(handle_list(&get("path=/d"), &entries));
    assert_eq!(names(&page).len(), 10_000);
    assert!(page.contains(r#""next":"09999","truncated":true"#));
}

#[test]
fn deletions_and_directories_are_reported() {
    assert_eq!(shown(handle_delete("/a")), (200, r#"{"deleted":"/a"}"#.to_string()));
    assert_eq!(shown(handle_mkdir("/a")), (200, r#"{"created":"/a"}"#.to_string()));
    assert!(wants_recursive(&get("recursive=true")));
    assert!(!wants_recursive(&get("path=x")));
}
