use sbx_server::isolation::{base_env, pre_exec_isolation, IsolationStep, KillSweep, Resource, SweepStep};
use sbx_server::json::print_doc;
use sbx_server::lifecycle::{handle_create, handle_delete, handle_delete_all, no_sandbox, Creation};
use sbx_server::procfs::{ProcInfo, UID_BASE};
use sbx_server::sandboxes::{
    confine, plan_home, random_hex, Confinement, CreateError, SandboxEntry, SandboxRegistry,
};
use sbx_server::strmap::StrMap;

fn none() -> Vec<ProcInfo> {
    Vec::new()
}

fn env(pairs: &[(&str, &str)]) -> StrMap {
    let mut m = StrMap::new();
    for (k, v) in pairs {
        m.insert(k.to_string(), v.to_string());
    }
    m
}

fn add(r: &mut SandboxRegistry, id: &str, idle: i64, now: i64) -> u32 {
    let uid = r.reserve(&none()).unwrap_or_else(|_| panic!("full"));
    let token = format!("token-{id}");
    r.create(uid, id.to_string(), token, env(&[]), None, Some(64), idle, Confinement::UidOnly, now);
    uid
}

fn entry(confinement: Confinement) -> SandboxEntry {
    SandboxEntry {
        id: "ab".to_string(),
        uid: 20_001,
        home: "/sbx/homes/ab".to_string(),
        created_at_ms: 5,
        env: env(&[("A", "1")]),
        max_procs: 16,
        max_mem_mb: 3,
        token: "t".to_string(),
        confinement,
        last_activity_ms: 5,
        idle_timeout_ms: 0,
    }
}

#[test]
fn sandboxes_are_apart() {
    let mut r = SandboxRegistry::new(3, false, &vec![UID_BASE + 1]);
    let a = add(&mut r, "a", 0, 10);
    let b = add(&mut r, "b", 0, 11);
    assert_eq!((a, b), (UID_BASE, UID_BASE + 2));
    assert_eq!(r.count(), 2);
    assert_eq!(r.ids(), vec!["a", "b"]);
    assert_eq!(r.remaining_capacity(), 1);
    let e = r.get("b").unwrap();
    assert_eq!((e.uid, e.home.as_str(), e.max_procs, e.max_mem_mb), (b, "/sbx/homes/b", 256, 64));
    assert_eq!((e.created_at_ms, e.last_activity_ms, e.token.as_str()), (11, 11, "token-b"));
    assert!(r.get("c").is_none());
}

#[test]
fn a_full_host_is_left_as_it_is() {
    let mut r = SandboxRegistry::new(1, false, &Vec::new());
    add(&mut r, "a", 0, 0);
    assert!(matches!(r.reserve(&none()), Err(CreateError::Full)));
    assert_eq!((r.count(), r.reserved, r.uids.next), (1, 1, 1));
    assert_eq!(r.remaining_capacity(), 0);
}

#[test]
fn used_up_uids_mean_a_full_host() {
    let mut r = SandboxRegistry::new(usize::MAX, false, &Vec::new());
    assert_eq!(r.remaining_capacity(), 4096);
    r.uids.next = 45_000;
    assert!(matches!(r.reserve(&none()), Err(CreateError::Full)));
    assert_eq!(r.reserved, 0);
}

#[test]
fn an_aborted_slot_is_free_again() {
    let mut r = SandboxRegistry::new(1, false, &Vec::new());
    let uid = r.reserve(&none()).unwrap_or_else(|_| panic!());
    assert_eq!(r.remaining_capacity(), 0);
    r.abort(uid);
    assert_eq!(r.remaining_capacity(), 1);
    assert_eq!(add(&mut r, "a", 0, 0), uid);
}

#[test]
fn a_deleted_sandbox_is_gone_and_its_uid_comes_back() {
    let mut r = SandboxRegistry::new(2, false, &Vec::new());
    let uid = add(&mut r, "a", 0, 0);
    assert!(r.delete("x").is_none());
    let e = r.delete("a").unwrap();
    assert_eq!(e.uid, uid);
    assert!(r.get("a").is_none());
    assert_eq!(r.remaining_capacity(), 2);
    assert_eq!(r.finish_delete("a", uid, true, None), Ok(()));
    assert_eq!(add(&mut r, "b", 0, 0), uid);
}

#[test]
fn a_doubtful_uid_is_not_reused() {
    let mut r = SandboxRegistry::new(4, false, &Vec::new());
    let a = add(&mut r, "a", 0, 0);
    let b = add(&mut r, "b", 0, 0);
    r.delete("a");
    r.delete("b");
    assert_eq!(
        r.finish_delete("a", a, false, Some("busy")),
        Err("sandbox a was removed but processes under uid 20000 survived the kill sweep".to_string())
    );
    assert_eq!(
        r.finish_delete("b", b, true, Some("busy")),
        Err("sandbox b was removed but its home could not be deleted: busy".to_string())
    );
    let c = add(&mut r, "c", 0, 0);
    assert!(c != a && c != b);
}

#[test]
fn idle_sandboxes_are_found() {
    let mut r = SandboxRegistry::new(4, false, &Vec::new());
    add(&mut r, "never", 0, 0);
    add(&mut r, "short", 100, 0);
    add(&mut r, "negative", -5, 0);
    assert!(r.idle_candidates(100).is_empty());
    assert_eq!(r.idle_candidates(101), vec!["short"]);
    r.touch("short", 50);
    r.touch("nobody", 50);
    assert!(r.idle_candidates(150).is_empty());
    assert_eq!(r.idle_candidates(151), vec!["short"]);
}

#[test]
fn sandboxes_are_listed() {
    let mut r = SandboxRegistry::new(4, false, &Vec::new());
    assert_eq!(print_doc(&r.list()), "[]");
    add(&mut r, "a", 0, 7);
    assert_eq!(
        print_doc(&r.list()),
        r#"[{"confinement":"uid-only","created_at_ms":7,"home":"/sbx/homes/a","id":"a","uid":20000}]"#
    );
}

#[test]
fn random_bytes_are_written_out() {
    assert_eq!(random_hex(&[0, 1, 0xab, 0xff]), "0001abff");
    assert_eq!(random_hex(&[]), "");
    assert_ne!(random_hex(&[1, 16]), random_hex(&[17, 0]));
}

#[test]
fn a_home_is_planned() {
    let plan = plan_home("ab");
    assert_eq!(plan.home, "/sbx/homes/ab");
    assert_eq!(plan.tmp, "/sbx/homes/ab/.tmp");
    assert_eq!(plan.proxy_dir, "/sbx/homes/ab/.sbx/proxy");
    assert_eq!(
        plan.owned,
        vec!["/sbx/homes/ab", "/sbx/homes/ab/.tmp", "/sbx/homes/ab/.sbx/proxy", "/sbx/homes/ab/.sbx"]
    );
}

#[test]
fn a_sandbox_is_unconfined_only_when_that_is_allowed() {
    assert_eq!(confine(Ok(9), false), Ok(Confinement::Landlock(9)));
    assert_eq!(confine(Err("no".to_string()), true), Ok(Confinement::UidOnly));
    assert_eq!(confine(Err("no".to_string()), false), Err("cannot confine sandbox: no".to_string()));
    assert_eq!(Confinement::Landlock(3).label(), "landlock");
    assert_eq!(Confinement::UidOnly.label(), "uid-only");
}

#[test]
fn a_process_of_a_sandbox_gets_its_environment_and_its_limits() {
    let e = entry(Confinement::Landlock(4));
    let env = base_env(&e);
    assert_eq!(
        env[0],
        (
            "PATH".to_string(),
            "/sbx/homes/ab/.local/bin:/usr/local/sbin:/usr/local/bin:/usr/sbin:/usr/bin:/sbin:/bin".to_string()
        )
    );
    assert_eq!(env[3], ("USER".to_string(), "sbx-ab".to_string()));
    assert_eq!(env[6], ("SBX_PROXY_DIR".to_string(), "/sbx/homes/ab/.sbx/proxy".to_string()));
    assert_eq!(env[7], ("A".to_string(), "1".to_string()));
    assert_eq!(env.len(), 8);
    let steps = pre_exec_isolation(&e);
    assert_eq!(steps[0], IsolationStep::NoNewPrivileges);
    assert_eq!(steps[1], IsolationStep::Restrict(4));
    assert_eq!(
        steps[3],
        IsolationStep::Limit { resource: Resource::Memory, value: 3 * 1024 * 1024, required: true }
    );
    assert_eq!(steps.len(), 8);
    let loose = pre_exec_isolation(&entry(Confinement::UidOnly));
    assert_eq!(
        loose[1],
        IsolationStep::Limit { resource: Resource::Processes, value: 16, required: true }
    );
    assert_eq!(loose.len(), 7);
}

#[test]
fn a_kill_sweep_is_honest_and_ends() {
    let mut sweep = KillSweep::new();
    assert_eq!(sweep.step(&Vec::new()), SweepStep::Done(true));
    for _ in 0..10 {
        assert_eq!(sweep.step(&vec![1]), SweepStep::Kill { pause_ms: 5 });
    }
    for _ in 10..100 {
        assert_eq!(sweep.step(&vec![1]), SweepStep::Kill { pause_ms: 10 });
    }
    assert_eq!(sweep.step(&vec![1]), SweepStep::Done(false));
    assert_eq!(sweep.step(&Vec::new()), SweepStep::Done(true));
}

fn refused(body: &str) -> (u16, String) {
    match handle_create(body.as_bytes(), 10) {
        Ok(_) => panic!("accepted {body}"),
        Err(reply) => (reply.status, print_doc(&reply.body)),
    }
}

#[test]
fn a_request_to_make_sandboxes_is_read() {
    let r = handle_create(
        br#"{"count":3,"env":{"A":"1","B":2},"max_procs":4096,"max_mem_mb":1,"idle_timeout_secs":-2}"#,
        10,
    )
    .unwrap_or_else(|_| panic!());
    assert_eq!((r.requested, r.count, r.max_procs, r.max_mem_mb), (3, 3, Some(4096), Some(1)));
    assert_eq!(r.idle_timeout_ms, -2000);
    assert_eq!(r.env.get("A").map(String::as_str), Some("1"));
    assert_eq!(r.env.get("B").map(String::as_str), Some(""));
    for body in ["", "not json", "[]", "{\"count\":0}", "{\"count\":-4}", "{\"count\":\"5\"}"] {
        let r = handle_create(body.as_bytes(), 10).unwrap_or_else(|_| panic!());
        assert_eq!((r.requested, r.count, r.max_procs, r.idle_timeout_ms), (1, 1, None, 0), "{body}");
        assert_eq!(r.env.len(), 0);
    }
}

#[test]
fn limits_of_a_sandbox_are_bounded() {
    let low = (400, r#"{"error":"max_procs must be 1..=4096"}"#.to_string());
    assert_eq!(refused("{\"max_procs\":0}"), low);
    assert_eq!(refused("{\"max_procs\":4097}"), low);
    let mem = (400, r#"{"error":"max_mem_mb must be 1..=1048576"}"#.to_string());
    assert_eq!(refused("{\"max_mem_mb\":0}"), mem);
    assert_eq!(refused("{\"max_mem_mb\":1048577}"), mem);
    let value = "x".repeat(65536);
    assert_eq!(
        refused(&format!("{{\"env\":{{\"A\":\"{value}\"}}}}")),
        (400, r#"{"error":"env too large (65537 bytes, max 65536)"}"#.to_string())
    );
    let value = "x".repeat(65535);
    assert!(handle_create(format!("{{\"env\":{{\"A\":\"{value}\"}}}}").as_bytes(), 1).is_ok());
}

#[test]
fn what_does_not_fit_is_reported() {
    let request = handle_create(b"{\"count\":5}", 2).unwrap_or_else(|_| panic!());
    assert_eq!((request.requested, request.count), (5, 2));
    let mut creation = Creation::new(request);
    assert!(creation.wants_more());
    creation.placed(&entry(Confinement::Landlock(4)));
    assert!(creation.wants_more());
    let reply = creation.reply();
    assert_eq!(reply.status, 200);
    assert_eq!(
        print_doc(&reply.body),
        r#"{"rejected":4,"sandboxes":[{"confinement":"landlock","home":"/sbx/homes/ab","id":"ab","token":"t","uid":20001}]}"#
    );
    let request = || handle_create(b"{\"count\":5}", 2).unwrap_or_else(|_| panic!());
    let full = Creation::new(request()).refused(CreateError::Full);
    assert_eq!((full.status, print_doc(&full.body)), (200, r#"{"rejected":5,"sandboxes":[]}"#.to_string()));
    let failed = Creation::new(request()).refused(CreateError::Io("no space".to_string()));
    assert_eq!(
        (failed.status, print_doc(&failed.body)),
        (500, r#"{"error":"failed to create sandbox: no space"}"#.to_string())
    );
}

#[test]
fn a_deletion_is_answered() {
    let r = handle_delete("a", None);
    assert_eq!((r.status, print_doc(&r.body)), (404, r#"{"error":"no such sandbox: a"}"#.to_string()));
    let r = handle_delete("a", Some(Ok(())));
    assert_eq!((r.status, print_doc(&r.body)), (200, r#"{"deleted":true,"id":"a"}"#.to_string()));
    let r = handle_delete("a", Some(Err("left".to_string())));
    assert_eq!(
        (r.status, print_doc(&r.body)),
        (500, r#"{"deleted":true,"error":"left","id":"a"}"#.to_string())
    );
    let r = handle_delete_all(2, &Vec::new());
    assert_eq!((r.status, print_doc(&r.body)), (200, r#"{"deleted":2}"#.to_string()));
    let r = handle_delete_all(2, &vec!["x".to_string()]);
    assert_eq!((r.status, print_doc(&r.body)), (500, r#"{"deleted":2,"errors":["x"]}"#.to_string()));
    assert_eq!(no_sandbox("b").status, 404);
}
