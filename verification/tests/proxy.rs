use sbx_server::fsutil::{FsStep, OpenMode, ScopedRoot};
use sbx_server::http::parse_head;
use sbx_server::json::print_doc;
use sbx_server::landlock::{
    abi_suffices, available, build_ruleset, features, ruleset_attr, system_dir_rules, FS_BASE, FS_EXECUTE,
    FS_IOCTL_DEV, FS_MAKE_REMOVE, FS_READ_DIR, FS_READ_FILE, FS_REFER, FS_TRUNCATE, FS_WRITE_FILE, FULL_ABI,
};
use sbx_server::proxy::{
    build_head, check_peer_uid, handle_proxy, open_sandbox_socket, split_target, unreachable_reply, vet_socket,
    SocketRefusal,
};

#[test]
fn port_must_be_a_number_in_range() {
    assert_eq!(split_target(&["8000"]), Some((8000, "/".to_string())));
    assert_eq!(split_target(&["8000", "ws"]), Some((8000, "/ws".to_string())));
    for bad in ["", "0", "65536", "-1", "abc", "..", "8000.sock", "08000\n"] {
        assert!(split_target(&[bad]).is_none(), "{bad:?} was accepted as a port");
    }
}

#[test]
fn a_proxy_path_is_kept() {
    assert_eq!(split_target(&["65535", "a", "", "b"]), Some((65535, "/a//b".to_string())));
    assert_eq!(split_target(&["1", ""]), Some((1, "/".to_string())));
    assert!(split_target(&[]).is_none());
    match handle_proxy(&["x"]) {
        Ok(_) => panic!(),
        Err(r) => {
            assert_eq!(r.status, 404);
            assert_eq!(
                print_doc(&r.body),
                r#"{"error":"proxy target must be /proxy/<port>/<path>, with port in 1-65535"}"#
            );
        }
    }
    let r = unreachable_reply(80, "refused");
    assert_eq!(r.status, 502);
    assert_eq!(print_doc(&r.body), r#"{"error":"cannot reach port 80 in sandbox: refused"}"#);
}

#[test]
fn a_socket_is_reached_by_plain_names() {
    let steps = open_sandbox_socket(&ScopedRoot::new("/sbx/homes/a", 20_001), 8000);
    assert_eq!(steps.len(), 3);
    assert!(matches!(&steps[0], FsStep::Open(n, OpenMode::Directory) if n == ".sbx"));
    assert!(matches!(&steps[1], FsStep::Open(n, OpenMode::Directory) if n == "proxy"));
    assert!(matches!(&steps[2], FsStep::Open(n, OpenMode::PathOnly) if n == "8000.sock"));
}

#[test]
fn only_a_socket_of_the_sandbox_is_connected_to() {
    assert_eq!(vet_socket(false, true, 7, 7), Ok(()));
    assert_eq!(vet_socket(true, false, 7, 7), Err(SocketRefusal::Symlink));
    assert_eq!(vet_socket(false, false, 7, 7), Err(SocketRefusal::NotASocket));
    assert_eq!(vet_socket(false, true, 8, 7), Err(SocketRefusal::NotOwned));
    assert_eq!(SocketRefusal::NotOwned.message(), "socket is not owned by this sandbox");
    assert_eq!(check_peer_uid(7, 7), Ok(()));
    assert_eq!(
        check_peer_uid(0, 7),
        Err("peer runs as uid 0, expected the sandbox's uid 7".to_string())
    );
}

#[test]
fn credentials_are_not_forwarded() {
    let request = parse_head(
        b"GET /v1/proxy/80/a?q=%20 HTTP/1.1\r\nHost: h\r\nX-Sandbox-Token: t\r\nUpgrade: websocket\r\nAuthorization: b\r\n\r\n",
    )
    .unwrap();
    assert_eq!(
        build_head(&request, "/a"),
        b"GET /a?q=%20 HTTP/1.1\r\nhost: h\r\nupgrade: websocket\r\n\r\n".to_vec()
    );
    let plain = parse_head(b"POST /v1/proxy/80 HTTP/1.0\r\n\r\n").unwrap();
    assert_eq!(build_head(&plain, "/"), b"POST / HTTP/1.1\r\n\r\n".to_vec());
}

#[test]
fn a_replayed_head_reads_back() {
    let request = parse_head(
        b"post /v1/proxy/80/a/?q=%20&r HTTP/1.0\r\nHost:  h \r\nEmpty:\r\nAuthorization: b\r\nContent-Length: 07\r\n\r\n",
    )
    .unwrap();
    let again = parse_head(&build_head(&request, "/a/")).unwrap();
    assert_eq!((again.method.as_str(), again.path.as_str()), ("POST", "/a/"));
    assert_eq!(again.raw_query, request.raw_query);
    assert_eq!(again.params.entries, request.params.entries);
    assert_eq!((again.content_length, again.keep_alive), (7, true));
    let headers: Vec<(&str, &str)> =
        again.headers.entries.iter().map(|(k, v)| (k.as_str(), v.as_str())).collect();
    assert_eq!(headers, [("host", "h"), ("empty", ""), ("content-length", "07")]);
}

#[test]
fn a_ruleset_grows_with_the_abi() {
    assert!(build_ruleset("/h", 0).is_none());
    assert!(!available(-1) && available(1));
    let one = ruleset_attr(1);
    assert_eq!((one.handled_access_fs, one.handled_access_net, one.scoped), (FS_BASE, 0, 0));
    let full = ruleset_attr(FULL_ABI);
    assert_eq!((full.handled_access_fs, full.handled_access_net, full.scoped), (0xffff, 1, 3));
    assert_eq!(ruleset_attr(4).handled_access_fs, 0x7fff);
    assert_eq!(ruleset_attr(2).handled_access_fs, 0x3fff);
}

#[test]
fn only_the_home_and_device_nodes_are_writable() {
    let set = build_ruleset("/h", FULL_ABI).unwrap_or_else(|| panic!());
    let writable: Vec<&str> =
        set.rules.iter().filter(|r| r.access & FS_WRITE_FILE != 0).map(|r| r.path.as_str()).collect();
    assert_eq!(
        writable,
        [
            "/dev/null",
            "/dev/zero",
            "/dev/full",
            "/dev/random",
            "/dev/urandom",
            "/dev/tty",
            "/dev/console",
            "/dev/ptmx",
            "/dev/pts",
            "/h"
        ]
    );
    assert!(!set.rules.iter().any(|r| r.path == "/tmp" || r.path == "/dev/shm" || r.path == "/dev"));
    let system = system_dir_rules(FULL_ABI);
    assert_eq!(system.len() + 1, set.rules.len());
    assert_eq!((system[0].path.as_str(), system[0].access), ("/usr", FS_EXECUTE | FS_READ_FILE | FS_READ_DIR));
    assert_eq!((system[10].path.as_str(), system[10].access), ("/proc", FS_READ_FILE | FS_READ_DIR));
    assert_eq!(system[12].access, FS_READ_FILE | FS_WRITE_FILE | FS_IOCTL_DEV);
    assert_eq!(system_dir_rules(1)[12].access, FS_READ_FILE | FS_WRITE_FILE);
    // Terminals come and go, so their directory is granted as a whole.
    assert_eq!(
        (system[20].path.as_str(), system[20].access),
        ("/dev/pts", FS_READ_FILE | FS_WRITE_FILE | FS_READ_DIR | FS_IOCTL_DEV)
    );
    // Nothing can be made, removed, moved or cut short outside the home.
    let reshaping = FS_MAKE_REMOVE | FS_REFER | FS_TRUNCATE;
    assert!(system.iter().all(|r| r.access & reshaping == 0));
    assert_eq!(set.rules[21].access, 0xffff);
}

#[test]
fn a_host_needs_what_it_promises() {
    assert_eq!(features(0), Vec::<&str>::new());
    assert_eq!(features(4), ["fs", "refer", "truncate", "no-tcp-bind"]);
    assert_eq!(features(6).len(), 7);
    assert!(abi_suffices(false, 0, 6, false));
    assert!(abi_suffices(true, 6, 6, false));
    assert!(!abi_suffices(true, 5, 6, false));
    assert!(abi_suffices(true, -1, 6, true));
}
