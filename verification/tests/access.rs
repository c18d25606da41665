use sbx_server::auth::{
    classify_scoped_token, ct_eq, host_route_auth, route_mode_allowed, Auth, RouteAuth, Scope,
};
use sbx_server::connection::{busy_response, goes_on, refuse, Connections};
use sbx_server::http::{HeadError, IoKind, ReadError};
use sbx_server::routes::{read_route, Op, Route};

fn segments(path: &str) -> Vec<&str> {
    path.trim_matches('/').split('/').collect()
}

#[test]
fn route_surfaces_are_mutually_exclusive() {
    let dedicated_only = [
        "/v1/exec",
        "/v1/processes",
        "/v1/processes/p-1",
        "/v1/files/read",
        "/v1/files/write",
        "/v1/files/list",
        "/v1/files/stat",
        "/v1/files/delete",
        "/v1/files/mkdir",
        "/v1/proxy/8000",
        "/v1/proxy/8000/ws",
    ];
    let host_only = [
        "/v1/sandboxes",
        "/v1/sandboxes/abc",
        "/v1/sandboxes/abc/exec",
        "/v1/sandboxes/abc/processes",
        "/v1/sandboxes/abc/processes/p-1",
        "/v1/sandboxes/abc/files/read",
        "/v1/sandboxes/abc/files/write",
        "/v1/sandboxes/abc/proxy/8000",
        "/v1/sandboxes/abc/proxy/8000/ws",
    ];

    for path in dedicated_only {
        assert!(route_mode_allowed(false, &segments(path)), "{path} should exist in dedicated mode");
        assert!(!route_mode_allowed(true, &segments(path)), "{path} must NOT exist in host mode");
    }
    for path in host_only {
        assert!(route_mode_allowed(true, &segments(path)), "{path} should exist in host mode");
        assert!(!route_mode_allowed(false, &segments(path)), "{path} must NOT exist in dedicated mode");
    }
}

#[test]
fn a_required_token_must_match_exactly() {
    let auth = Auth::Required("s3cret".to_string());
    assert!(auth.accepts(Some("s3cret")));
    assert!(!auth.accepts(None), "a missing token must be refused");
    assert!(!auth.accepts(Some("")), "an empty token must be refused");
    assert!(!auth.accepts(Some("s3cre")), "a prefix must be refused");
    assert!(!auth.accepts(Some("s3crets")), "a superstring must be refused");
    assert!(!auth.accepts(Some("S3CRET")), "the compare must be case-sensitive");
}

#[test]
fn disabled_auth_has_to_be_asked_for_by_name() {
    assert!(Auth::DisabledForDevelopment.accepts(None));
    // An empty token is filtered out at startup, so it can never be required.
    assert!(!Auth::Required(String::new()).accepts(None));
}

#[test]
fn constant_time_compare_agrees_with_equality() {
    for (a, b) in [("", ""), ("a", "a"), ("a", "b"), ("ab", "a"), ("a", "ab"), ("token", "token")] {
        assert_eq!(ct_eq(a, b), a == b, "ct_eq({a:?}, {b:?})");
    }
}

#[test]
fn a_sandbox_token_addresses_only_its_own_sandbox() {
    let host = Auth::Required("host-management-token".to_string());
    let mine = "sandbox-a-token";
    let theirs = "sandbox-b-token";

    assert_eq!(classify_scoped_token(mine, mine, &host, false), Some(Scope::Sandbox));
    assert_eq!(classify_scoped_token(theirs, mine, &host, false), None, "a sibling's token must not work");
    assert_eq!(classify_scoped_token("", mine, &host, false), None);
    assert_eq!(classify_scoped_token("sandbox-a-toke", mine, &host, false), None, "a prefix must not work");
}

#[test]
fn the_host_token_on_a_scoped_route_depends_on_the_compat_window() {
    let host = Auth::Required("host-management-token".to_string());
    let sandbox = "sandbox-a-token";

    // Transitional: a management credential may address its sandboxes.
    assert_eq!(
        classify_scoped_token("host-management-token", sandbox, &host, true),
        Some(Scope::Host)
    );
    // With the window closed, scoped routes require scoped tokens.
    assert_eq!(classify_scoped_token("host-management-token", sandbox, &host, false), None);
    // Either way it is still recognised as the host credential, never as the sandbox's.
    assert_ne!(
        classify_scoped_token("host-management-token", sandbox, &host, true),
        Some(Scope::Sandbox)
    );
}

#[test]
fn pool_lifecycle_and_token_recovery_are_management_routes() {
    let management = ["/v1/sandboxes"];
    for path in management {
        assert!(
            matches!(host_route_auth(&segments(path)), RouteAuth::Management),
            "{path} must require the host token"
        );
    }
    assert!(matches!(host_route_auth(&segments("/v1/sandboxes/abc/token")), RouteAuth::Management));

    // Everything else scoped under a sandbox id belongs to that sandbox.
    for path in [
        "/v1/sandboxes/abc",
        "/v1/sandboxes/abc/exec",
        "/v1/sandboxes/abc/processes",
        "/v1/sandboxes/abc/files/read",
        "/v1/sandboxes/abc/proxy/8000/ws",
    ] {
        match host_route_auth(&segments(path)) {
            RouteAuth::Sandbox(id) => assert_eq!(id, "abc", "{path}"),
            _ => panic!("{path} should be scoped to a sandbox"),
        }
    }
}

#[test]
fn token_recovery_is_not_reachable_with_a_sandbox_token() {
    assert!(matches!(host_route_auth(&segments("/v1/sandboxes/victim/token")), RouteAuth::Management));
}

#[test]
fn every_route_is_read() {
    let s = |path: &'static str| segments(path);
    assert!(matches!(read_route("POST", &s("/v1/exec"), &s("/v1/exec")), Route::Op(None, Op::Exec)));
    assert!(matches!(read_route("GET", &s("/v1/exec"), &s("/v1/exec")), Route::Unknown));
    assert!(matches!(read_route("POST", &s("/v1/processes"), &s("/v1/processes")), Route::Op(None, Op::ProcessStart)));
    assert!(matches!(read_route("GET", &s("/v1/processes"), &s("/v1/processes")), Route::Op(None, Op::ProcessList)));
    assert!(matches!(read_route("DELETE", &s("/v1/processes/p-1"), &s("/v1/processes/p-1")), Route::Op(None, Op::ProcessDelete("p-1"))));
    assert!(matches!(read_route("GET", &s("/v1/files/read"), &s("/v1/files/read")), Route::Op(None, Op::FileRead)));
    assert!(matches!(read_route("PUT", &s("/v1/files/write"), &s("/v1/files/write")), Route::Op(None, Op::FileWrite)));
    assert!(matches!(read_route("GET", &s("/v1/files/list"), &s("/v1/files/list")), Route::Op(None, Op::FileList)));
    assert!(matches!(read_route("GET", &s("/v1/files/stat"), &s("/v1/files/stat")), Route::Op(None, Op::FileStat)));
    assert!(matches!(read_route("DELETE", &s("/v1/files/delete"), &s("/v1/files/delete")), Route::Op(None, Op::FileDelete)));
    assert!(matches!(read_route("POST", &s("/v1/files/mkdir"), &s("/v1/files/mkdir")), Route::Op(None, Op::FileMkdir)));
    assert!(matches!(read_route("POST", &s("/v1/files/read"), &s("/v1/files/read")), Route::Unknown));
    match read_route("PATCH", &s("/v1/proxy/8000/a/b"), &s("/v1/proxy/8000/a/b")) {
        Route::Op(None, Op::Proxy(rest)) => assert_eq!(rest, vec!["8000", "a", "b"]),
        _ => panic!("proxy"),
    }
    // What is passed on keeps the slash at its end.
    match read_route("GET", &s("/v1/proxy/8000/a"), &["v1", "proxy", "8000", "a", ""]) {
        Route::Op(None, Op::Proxy(rest)) => assert_eq!(rest, vec!["8000", "a", ""]),
        _ => panic!("proxy"),
    }
    assert!(matches!(read_route("POST", &s("/v1/sandboxes"), &s("/v1/sandboxes")), Route::Create));
    assert!(matches!(read_route("GET", &s("/v1/sandboxes"), &s("/v1/sandboxes")), Route::ListSandboxes));
    assert!(matches!(read_route("DELETE", &s("/v1/sandboxes"), &s("/v1/sandboxes")), Route::DeleteAll));
    assert!(matches!(read_route("PUT", &s("/v1/sandboxes"), &s("/v1/sandboxes")), Route::Unknown));
    assert!(matches!(read_route("DELETE", &s("/v1/sandboxes/a"), &s("/v1/sandboxes/a")), Route::DeleteSandbox("a")));
    assert!(matches!(read_route("GET", &s("/v1/sandboxes/a/token"), &s("/v1/sandboxes/a/token")), Route::Token("a")));
    assert!(matches!(read_route("POST", &s("/v1/sandboxes/a/token"), &s("/v1/sandboxes/a/token")), Route::Unknown));
    assert!(matches!(read_route("POST", &s("/v1/sandboxes/a/exec"), &s("/v1/sandboxes/a/exec")), Route::Op(Some("a"), Op::Exec)));
    assert!(matches!(
        read_route("DELETE", &s("/v1/sandboxes/a/processes/p-2"), &s("/v1/sandboxes/a/processes/p-2")),
        Route::Op(Some("a"), Op::ProcessDelete("p-2"))
    ));
    assert!(matches!(read_route("PUT", &s("/v1/sandboxes/a/files/write"), &s("/v1/sandboxes/a/files/write")), Route::Op(Some("a"), Op::FileWrite)));
    assert!(matches!(read_route("GET", &s("/v2/exec"), &s("/v2/exec")), Route::Unknown));
}

#[test]
fn connections_are_bounded() {
    let mut c = Connections::new();
    assert!(c.acquire(2));
    assert!(c.acquire(2));
    assert!(!c.acquire(2));
    c.release();
    assert!(c.acquire(2));
    assert_eq!(c.live, 2);
    assert!(busy_response().starts_with("HTTP/1.1 503 "));
    assert!(goes_on(false, true, true, true));
    assert!(!goes_on(true, true, true, true));
    assert!(!goes_on(false, true, true, false));
}

#[test]
fn a_request_that_cannot_be_read_is_answered() {
    assert_eq!(refuse(ReadError::Head(HeadError::Method), "").unwrap_or_else(|| panic!()).status, 400);
    assert_eq!(refuse(ReadError::TimedOut, "").unwrap_or_else(|| panic!()).status, 408);
    assert_eq!(refuse(ReadError::Io(IoKind::WouldBlock), "late").unwrap_or_else(|| panic!()).status, 408);
    assert!(refuse(ReadError::EofInHead, "").is_none());
    assert!(refuse(ReadError::Io(IoKind::Other), "broken").is_none());
}
