use sbx_server::auth::{Auth, Scope};
use sbx_server::config::{env_number, read_config, Config, ConfigError, Env};
use sbx_server::exec::{handle_exec, ExitInfo};
use sbx_server::http::{parse_head, Request};
use sbx_server::json::print_doc;
use sbx_server::processes::ProcRegistry;
use sbx_server::proxy::{build_head, handle_proxy};
use sbx_server::routes::Op;
use sbx_server::sandboxes::{Confinement, SandboxRegistry};
use sbx_server::server::{
    authorize, authorized, end_delete, health, note_activity, route, segments, whole_segments, Action, State,
};
use sbx_server::strmap::StrMap;
use sbx_server::watchdog::{evictable, idle_ms, is_at_rest, Watchdog};

fn state(host_mode: bool) -> State {
    State {
        auth: Auth::Required("host".to_string()),
        started_at_ms: 100,
        last_activity_ms: 100,
        procs: ProcRegistry::default(),
        sandboxes: SandboxRegistry::new(8, false, &Vec::new()),
        host_mode,
        compat_host_token: true,
        landlock_abi: 1,
    }
}

fn host() -> State {
    let mut s = state(true);
    for id in ["a", "b"] {
        let uid = s.sandboxes.reserve(&Vec::new()).unwrap_or_else(|_| panic!());
        s.sandboxes.create(
            uid,
            id.to_string(),
            format!("tok-{id}"),
            StrMap::new(),
            None,
            None,
            50,
            Confinement::UidOnly,
            100,
        );
    }
    s
}

fn request(method: &str, path: &str, token: &str) -> Request {
    let auth = if token.is_empty() { String::new() } else { format!("X-Sandbox-Token: {token}\r\n") };
    parse_head(format!("{method} {path} HTTP/1.1\r\nHost: h\r\n{auth}\r\n").as_bytes()).unwrap()
}

fn reply(s: &mut State, method: &str, path: &str, token: &str) -> (u16, String) {
    match route(s, &request(method, path, token), 500) {
        Action::Reply(r) => (r.status, print_doc(&r.body)),
        _ => panic!("no reply"),
    }
}

fn error(status: u16, message: &str) -> (u16, String) {
    (status, format!("{{\"error\":\"{message}\"}}"))
}

#[test]
fn everybody_learns_that_the_server_lives() {
    let mut s = host();
    let open = (200, r#"{"status":"ok"}"#.to_string());
    assert_eq!(reply(&mut s, "GET", "/health", ""), open);
    assert_eq!(reply(&mut s, "GET", "/health", "tok-a"), open);
    assert_eq!(
        reply(&mut s, "GET", "/health", "host"),
        (
            200,
            r#"{"auth":"required","landlock":{"abi":1,"features":["fs"]},"mode":"host","sandboxes":2,"status":"ok","uptime_ms":400,"version":"0.1.0"}"#
                .to_string()
        )
    );
    assert_eq!(s.last_activity_ms, 100);
    let mut free = state(false);
    free.auth = Auth::DisabledForDevelopment;
    let told = print_doc(&health(&free, true, 100).body);
    assert!(told.contains(r#""auth":"disabled""#) && told.contains(r#""mode":"dedicated""#));
    assert!(authorized(&free, &request("GET", "/", "")));
}

#[test]
fn a_refused_caller_learns_nothing() {
    let mut s = host();
    let no = error(403, "invalid or missing X-Sandbox-Token");
    for path in ["/v1/exec", "/v1/sandboxes", "/v1/sandboxes/a", "/v1/sandboxes/none/exec", "/nothing"] {
        assert_eq!(reply(&mut s, "POST", path, ""), no, "{path}");
        assert_eq!(reply(&mut s, "POST", path, "wrong"), no, "{path}");
    }
    assert_eq!(s.last_activity_ms, 100);
    assert_eq!(s.sandboxes.get("a").unwrap().last_activity_ms, 100);
}

#[test]
fn a_sandbox_token_acts_on_its_sandbox_only() {
    let mut s = host();
    let r = request("POST", "/v1/sandboxes/a/exec", "tok-a");
    assert!(matches!(route(&mut s, &r, 500), Action::Run(Some("a"), Op::Exec)));
    assert_eq!(s.last_activity_ms, 500);
    assert_eq!(s.sandboxes.get("a").unwrap().last_activity_ms, 500);
    assert_eq!(s.sandboxes.get("b").unwrap().last_activity_ms, 100);
    let no = error(403, "invalid or missing X-Sandbox-Token");
    assert_eq!(reply(&mut s, "POST", "/v1/sandboxes/b/exec", "tok-a"), no);
    assert_eq!(reply(&mut s, "GET", "/v1/sandboxes", "tok-a"), no);
    assert_eq!(reply(&mut s, "GET", "/v1/sandboxes/a/token", "tok-a"), no);
    let r = request("DELETE", "/v1/sandboxes/a", "tok-a");
    assert!(matches!(route(&mut s, &r, 500), Action::DeleteSandbox("a")));
}

#[test]
fn the_host_token_manages_the_pool() {
    let mut s = host();
    assert_eq!(
        reply(&mut s, "GET", "/v1/sandboxes/a/token", "host"),
        (200, r#"{"id":"a","token":"tok-a"}"#.to_string())
    );
    assert_eq!(reply(&mut s, "GET", "/v1/sandboxes/x/token", "host"), error(404, "no such sandbox: x"));
    assert!(reply(&mut s, "GET", "/v1/sandboxes", "host").1.contains(r#""id":"b""#));
    assert!(matches!(route(&mut s, &request("POST", "/v1/sandboxes", "host"), 1), Action::Create));
    assert!(matches!(route(&mut s, &request("DELETE", "/v1/sandboxes", "host"), 1), Action::DeleteAll));
    let r = request("GET", "/v1/sandboxes/b/files/list", "host");
    assert!(matches!(route(&mut s, &r, 1), Action::Run(Some("b"), Op::FileList)));
    s.compat_host_token = false;
    assert_eq!(reply(&mut s, "GET", "/v1/sandboxes/b/files/list", "host").0, 403);
    assert_eq!(authorize(&s, Some("host"), &["v1", "sandboxes"]), Some(Scope::Host));
    assert_eq!(authorize(&s, Some("tok-b"), &["v1", "sandboxes", "b", "exec"]), Some(Scope::Sandbox));
    assert_eq!(authorize(&s, None, &["v1", "sandboxes", "b", "exec"]), None);
}

#[test]
fn surfaces_do_not_mix() {
    let mut s = host();
    assert_eq!(
        reply(&mut s, "POST", "/v1/exec", "host"),
        error(404, "no route in this server mode: POST /v1/exec")
    );
    let mut d = state(false);
    assert_eq!(
        reply(&mut d, "GET", "/v1/sandboxes", "host"),
        error(404, "no route in this server mode: GET /v1/sandboxes")
    );
    assert!(matches!(route(&mut d, &request("POST", "/v1/exec", "host"), 1), Action::Run(None, Op::Exec)));
    assert_eq!(reply(&mut d, "GET", "/v1/exec", "host"), error(404, "no route: GET /v1/exec"));
    assert_eq!(reply(&mut d, "GET", "/v1/processes", "host"), (200, "[]".to_string()));
    let r = parse_head(b"POST /v1/exec HTTP/1.1\r\nX-Sandbox-Token: host\r\nTransfer-Encoding: chunked\r\n\r\n").unwrap();
    match route(&mut d, &r, 1) {
        Action::Reply(r) => assert_eq!(
            (r.status, print_doc(&r.body)),
            error(411, "chunked request bodies not supported; send Content-Length")
        ),
        _ => panic!(),
    }
    assert_eq!(segments("//v1/exec/"), ["v1", "exec"]);
    assert_eq!(segments("/"), [""]);
    assert_eq!(whole_segments("//v1/exec//"), ["v1", "exec", "", ""]);
}

#[test]
fn a_proxy_request_keeps_its_path() {
    for (path, sent) in [
        ("/v1/proxy/8000/foo/", "/foo/"),
        ("/v1/proxy/8000/foo", "/foo"),
        ("/v1/proxy/8000/a//b//", "/a//b//"),
        ("/v1/proxy/8000/", "/"),
        ("/v1/proxy/8000//", "//"),
        ("/v1/proxy/8000", "/"),
    ] {
        let head = format!("GET {path} HTTP/1.1\r\nX-Sandbox-Token: host\r\n\r\n");
        let request = parse_head(head.as_bytes()).unwrap();
        let mut s = state(false);
        let rest = match route(&mut s, &request, 1) {
            Action::Run(None, Op::Proxy(rest)) => rest,
            _ => panic!("{path}"),
        };
        let (port, target) = handle_proxy(&rest).unwrap_or_else(|_| panic!());
        assert_eq!((port, target.as_str()), (8000, sent));
        assert_eq!(build_head(&request, &target), format!("GET {sent} HTTP/1.1\r\n\r\n").into_bytes());
    }
    let request =
        parse_head(b"GET /v1/sandboxes/a/proxy/80/x/ HTTP/1.1\r\nX-Sandbox-Token: tok-a\r\n\r\n").unwrap();
    let mut s = host();
    match route(&mut s, &request, 1) {
        Action::Run(Some("a"), Op::Proxy(rest)) => assert_eq!(rest, vec!["80", "x", ""]),
        _ => panic!(),
    }
}

#[test]
fn a_deletion_forgets_the_processes() {
    let mut s = host();
    let spec = handle_exec(br#"{"cmd":"x"}"#).unwrap_or_else(|_| panic!());
    s.procs.start_background(&spec, 7, 1, Some("a"));
    s.procs.start_background(&spec, 8, 1, Some("b"));
    let e = s.sandboxes.delete("a").unwrap_or_else(|| panic!());
    assert_eq!(end_delete(&mut s, "a", e.uid, true, None), Ok(()));
    assert_eq!(s.procs.procs.len(), 1);
    assert_eq!(s.sandboxes.uids.free, vec![e.uid]);
}

#[test]
fn a_sandbox_with_work_is_not_evicted() {
    let mut s = host();
    assert!(evictable(&s, 150).is_empty());
    assert_eq!(evictable(&s, 151), ["a", "b"]);
    let spec = handle_exec(br#"{"cmd":"x"}"#).unwrap_or_else(|_| panic!());
    assert!(is_at_rest(&s, "a"));
    s.procs.start_background(&spec, 7, 1, Some("a"));
    assert!(!is_at_rest(&s, "a") && is_at_rest(&s, "b"));
    assert_eq!(evictable(&s, 151), ["b"]);
    s.procs.begin_op();
    assert!(evictable(&s, 151).is_empty());
    s.procs.end_op();
    let info = ExitInfo { exit_code: Some(0), signal: None, timed_out: false, duration_ms: 0 };
    s.procs.pump_background("p-0", info);
    assert_eq!(evictable(&s, 151), ["a", "b"]);
}

#[test]
fn an_abandoned_server_stops_and_a_busy_one_does_not() {
    let mut d = state(false);
    let mut dog = Watchdog::new(100, idle_ms(1));
    assert_eq!(dog.tick(&d, 1100), None);
    assert_eq!(dog.tick(&d, 1101), Some(1001));
    note_activity(&mut d, 1100);
    assert_eq!(dog.tick(&d, 1101), None);
    d.procs.begin_op();
    assert_eq!(dog.tick(&d, 9999), None);
    let mut h = host();
    assert_eq!(dog.tick(&h, 9999), None);
    assert_eq!(dog.empty_since, 9999);
    h.sandboxes.delete("a");
    h.sandboxes.delete("b");
    assert_eq!(dog.tick(&h, 10_999), None);
    assert_eq!(dog.tick(&h, 11_000), Some(1001));
    assert_eq!(idle_ms(u64::MAX), -1000);
}

fn env() -> Env {
    Env {
        port: None,
        token: Some("t".to_string()),
        idle_timeout: None,
        capacity: None,
        host_mode: None,
        max_connections: None,
        compat_host_token: None,
        min_landlock_abi: None,
    }
}

fn config(e: &Env, args: &[&str]) -> Result<Config, ConfigError> {
    read_config(e, &args.iter().map(|a| a.to_string()).collect())
}

#[test]
fn a_configuration_has_defaults() {
    let c = config(&env(), &[]).unwrap_or_else(|_| panic!());
    assert!(matches!(c.auth, Auth::Required(t) if t == "t"));
    assert_eq!((c.port, c.idle_timeout_secs, c.capacity, c.max_connections), (8000, None, 64, 512));
    assert_eq!((c.host_mode, c.compat_host_token, c.allow_unconfined, c.min_abi), (false, true, false, 6));
    let e = Env {
        port: Some("+80".to_string()),
        idle_timeout: Some("0".to_string()),
        capacity: Some("1".to_string()),
        host_mode: Some("1".to_string()),
        max_connections: Some("2".to_string()),
        compat_host_token: Some("0".to_string()),
        min_landlock_abi: Some("-1".to_string()),
        ..env()
    };
    let c = config(&e, &["--allow-unconfined"]).unwrap_or_else(|_| panic!());
    assert_eq!((c.port, c.idle_timeout_secs, c.capacity, c.max_connections), (80, Some(0), 1, 2));
    assert_eq!((c.host_mode, c.compat_host_token, c.allow_unconfined, c.min_abi), (true, false, true, -1));
}

fn problem(e: Env) -> Option<ConfigError> {
    config(&e, &[]).err()
}

#[test]
fn a_wrong_configuration_stops_the_server() {
    let bad = || Some("x".to_string());
    let zero = || Some("0".to_string());
    assert_eq!(problem(Env { port: Some("65536".to_string()), ..env() }), Some(ConfigError::Port));
    assert_eq!(problem(Env { idle_timeout: bad(), ..env() }), Some(ConfigError::IdleTimeout));
    assert_eq!(problem(Env { capacity: bad(), ..env() }), Some(ConfigError::Capacity));
    assert_eq!(problem(Env { capacity: zero(), ..env() }), Some(ConfigError::ZeroCapacity));
    assert_eq!(problem(Env { max_connections: bad(), ..env() }), Some(ConfigError::MaxConnections));
    assert_eq!(problem(Env { max_connections: zero(), ..env() }), Some(ConfigError::ZeroConnections));
    assert_eq!(problem(Env { min_landlock_abi: bad(), ..env() }), Some(ConfigError::MinAbi));
    assert_eq!(env_number(&None, 4, 9), Some(4));
    assert_eq!(env_number(&Some("10".to_string()), 4, 9), None);
}

#[test]
fn no_token_has_to_be_asked_for() {
    for token in [None, Some(String::new())] {
        let e = Env { token: token.clone(), ..env() };
        assert_eq!(config(&e, &[]).err(), Some(ConfigError::NoToken));
        assert_eq!(config(&e, &["allow-no-auth"]).err(), Some(ConfigError::NoToken));
        let c = config(&e, &["x", "--allow-no-auth"]).unwrap_or_else(|_| panic!());
        assert!(matches!(c.auth, Auth::DisabledForDevelopment));
    }
    let c = config(&env(), &["--allow-no-auth"]).unwrap_or_else(|_| panic!());
    assert!(matches!(c.auth, Auth::Required(_)));
}
