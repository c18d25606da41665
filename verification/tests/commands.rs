use sbx_server::exec::{
    background_reply, exit_info, handle_exec, handle_process_start, output_event, plan_command, process_reply, spawn_failed,
    start_line, stream_events, time_left, Cmd, CommandWatch, Event, ExecSpec, ExitInfo, StreamInput, StreamStep,
};
use sbx_server::isolation::IsolationStep;
use sbx_server::json::{parse_json, print_doc};
use sbx_server::processes::{
    handle_process_delete, reap_step, OwnedPids, Proc, ProcRegistry, ProcState, ReapStep, MAX_FINISHED_PROCS,
};
use sbx_server::response::ResponseWriter;
use sbx_server::sandboxes::{Confinement, SandboxEntry};
use sbx_server::strmap::StrMap;

fn spec(body: &str) -> ExecSpec {
    handle_exec(body.as_bytes()).unwrap_or_else(|r| panic!("{}", print_doc(&r.body)))
}

fn refused(body: &str) -> String {
    match handle_exec(body.as_bytes()) {
        Ok(_) => panic!("accepted {body}"),
        Err(reply) => {
            assert_eq!(reply.status, 400);
            print_doc(&reply.body)
        }
    }
}

fn done(code: i32) -> ExitInfo {
    ExitInfo { exit_code: Some(code), signal: None, timed_out: false, duration_ms: 3 }
}

fn sandbox() -> SandboxEntry {
    SandboxEntry {
        id: "ab".to_string(),
        uid: 20_001,
        home: "/sbx/homes/ab".to_string(),
        created_at_ms: 0,
        env: StrMap::new(),
        max_procs: 1,
        max_mem_mb: 1,
        token: "t".to_string(),
        confinement: Confinement::UidOnly,
        last_activity_ms: 0,
        idle_timeout_ms: 0,
    }
}

#[test]
fn a_command_line_runs_in_the_shell() {
    let s = spec(r#"{"cmd":"ls | wc","cwd":"/tmp","stdin":"in","tag":"t","timeout":1.5,"env":{"A":"b"}}"#);
    assert_eq!(s.argv, vec!["/bin/sh", "-c", "ls | wc"]);
    assert!(matches!(&s.cmd_json, Cmd::Line(l) if l == "ls | wc"));
    assert_eq!(s.cwd.as_deref(), Some("/tmp"));
    assert_eq!(s.stdin.as_deref(), Some("in"));
    assert_eq!(s.tag.as_deref(), Some("t"));
    assert_eq!(s.timeout_secs.as_deref(), Some("1.5"));
    assert_eq!(s.env.get("A").map(String::as_str), Some("b"));
    assert!(!s.background);
}

#[test]
fn an_argument_list_runs_as_it_is() {
    let s = spec(r#"{"cmd":["ls","-l"],"background":true,"timeout":7,"shell":false}"#);
    assert_eq!(s.argv, vec!["ls", "-l"]);
    assert!(s.background);
    assert_eq!(s.timeout_secs.as_deref(), Some("7"));
    assert_eq!(spec(r#"{"cmd":["ls"],"timeout":-2}"#).timeout_secs.as_deref(), Some("-2"));
    assert_eq!(spec(r#"{"cmd":["ls"],"timeout":"2"}"#).timeout_secs, None);
}

#[test]
fn a_body_that_names_no_command_is_refused() {
    assert_eq!(refused(r#"{"cmd":1}"#), r#"{"error":"missing 'cmd' (string or array of strings)"}"#);
    assert_eq!(refused("[]"), r#"{"error":"missing 'cmd' (string or array of strings)"}"#);
    assert_eq!(refused(r#"{"cmd":[]}"#), r#"{"error":"cmd array must not be empty"}"#);
    assert_eq!(refused(r#"{"cmd":["a",1]}"#), r#"{"error":"cmd array items must be strings"}"#);
    assert_eq!(
        refused(r#"{"cmd":["a"],"shell":true}"#),
        r#"{"error":"shell=true requires 'cmd' to be a string"}"#
    );
    assert_eq!(
        refused(r#"{"cmd":"a","shell":false}"#),
        r#"{"error":"shell=false requires 'cmd' to be an array of strings"}"#
    );
    assert_eq!(refused(r#"{"shell":true}"#), r#"{"error":"shell=true requires 'cmd' to be a string"}"#);
    assert!(refused("{").starts_with(r#"{"error":"invalid JSON body: EOF while parsing"#));
}

#[test]
fn a_process_is_started_in_the_background_whatever_the_body_says() {
    let s = handle_process_start(br#"{"cmd":"x","background":false}"#).unwrap_or_else(|_| panic!());
    assert!(s.background);
    assert!(handle_process_start(b"{}").is_err());
}

#[test]
fn a_document_and_a_body_read_the_same() {
    let json = parse_json(br#"{"cmd":"x","cmd":["y"]}"#).unwrap_or_else(|_| panic!());
    let s = ExecSpec::from_json(&json).unwrap_or_else(|_| panic!());
    assert_eq!(s.argv, vec!["y"]);
    assert!(matches!(parse_json(b"{]"), Err(m) if m == "key must be a string at line 1 column 2"));
}

#[test]
fn a_command_of_a_sandbox_is_planned() {
    let s = spec(r#"{"cmd":["p","q"],"env":{"HOME":"/x"}}"#);
    let plan = plan_command(&s, Some(&sandbox()));
    assert_eq!((plan.program.as_str(), plan.args), ("p", vec!["q".to_string()]));
    assert!(plan.clear_env && !plan.stdin_piped);
    assert_eq!(plan.uid, Some(20_001));
    assert_eq!(plan.cwd.as_deref(), Some("/sbx/homes/ab"));
    assert_eq!(plan.env.len(), 8);
    assert_eq!(plan.env[7], ("HOME".to_string(), "/x".to_string()));
    assert_eq!(plan.isolation[0], IsolationStep::NoNewPrivileges);
    let plan = plan_command(&spec(r#"{"cmd":"p","cwd":"/w","stdin":""}"#), None);
    assert!(!plan.clear_env && plan.stdin_piped && plan.uid.is_none() && plan.isolation.is_empty());
    assert_eq!(plan.cwd.as_deref(), Some("/w"));
    assert!(plan.env.is_empty());
    assert_eq!(spawn_failed("p", "e"), "failed to spawn 'p': e");
}

#[test]
fn events_are_lines() {
    assert_eq!(Event::Stdout("a\"\n".to_string()).to_line(), "{\"data\":\"a\\\"\\n\",\"event\":\"stdout\"}\n");
    assert_eq!(Event::Stderr("b".to_string()).to_line(), "{\"data\":\"b\",\"event\":\"stderr\"}\n");
    assert_eq!(
        Event::Exit(done(2)).to_line(),
        "{\"duration_ms\":3,\"event\":\"exit\",\"exit_code\":2,\"signal\":null,\"timed_out\":false}\n"
    );
    assert!(matches!(output_event(b"a\xffb", false), Event::Stdout(d) if d == "a\u{fffd}b"));
    assert!(matches!(output_event("\u{e9}".as_bytes(), true), Event::Stderr(d) if d == "\u{e9}"));
    assert_eq!(start_line(7), "{\"event\":\"start\",\"pid\":7}\n");
}

#[test]
fn a_stream_goes_on_until_the_exit() {
    let mut resp = ResponseWriter::new(true);
    let step = stream_events(&StreamInput::Silence, &mut resp);
    assert_eq!(step, StreamStep::Wait);
    assert_eq!(resp.flush(), b"11\r\n{\"event\":\"ping\"}\n\r\n".to_vec());
    let step = stream_events(&StreamInput::Event(Event::Stdout("x".to_string())), &mut resp);
    assert_eq!(step, StreamStep::Active);
    assert_eq!(resp.flush(), b"1e\r\n{\"data\":\"x\",\"event\":\"stdout\"}\n\r\n".to_vec());
    assert_eq!(stream_events(&StreamInput::Event(Event::Exit(done(0))), &mut resp), StreamStep::Ended);
    resp.flush();
    assert_eq!(stream_events(&StreamInput::Closed, &mut resp), StreamStep::Stop);
    assert!(resp.flush().is_empty());
}

#[test]
fn a_command_is_watched() {
    assert_eq!(time_left(100, 50, 120), 30);
    assert_eq!(time_left(100, 50, 151), 0);
    assert_eq!(exit_info(None, true, 10, 15), ExitInfo { exit_code: None, signal: None, timed_out: false, duration_ms: 5 });
    let mut w = CommandWatch::new(9, 10);
    assert_eq!(w.wait_and_report(), None);
    assert_eq!(w.on_deadline(false), None);
    assert_eq!(w.on_deadline(true), Some(9));
    w.on_exit(Some((None, Some(9))), 30);
    assert_eq!(w.on_deadline(true), None);
    let info = ExitInfo { exit_code: None, signal: Some(9), timed_out: true, duration_ms: 20 };
    assert_eq!(w.wait_and_report(), Some(info));
    assert_eq!(w.wait_and_report(), None);
}

#[test]
fn a_started_process_is_reported() {
    let none = None;
    assert_eq!(print_doc(&background_reply(4, &none).body), r#"{"pid":4,"tag":null}"#);
    let s = spec(r#"{"cmd":["a","b"],"tag":"t"}"#);
    assert_eq!(
        print_doc(&process_reply("p-1", 4, &s.cmd_json, &s.tag).body),
        r#"{"cmd":["a","b"],"id":"p-1","pid":4,"tag":"t"}"#
    );
}

#[test]
fn processes_are_listed_by_sandbox() {
    let mut r = ProcRegistry::default();
    assert_eq!(r.start_background(&spec(r#"{"cmd":"a","tag":"t"}"#), 11, 5, Some("x")), "p-0");
    assert_eq!(r.start_background(&spec(r#"{"cmd":["b"]}"#), 12, 6, Some("y")), "p-1");
    assert_eq!(
        print_doc(&r.list_processes(Some("x"))),
        r#"[{"cmd":"a","exit_code":null,"id":"p-0","pid":11,"running":true,"started_at_ms":5,"tag":"t"}]"#
    );
    r.pump_background("p-1", done(3));
    r.pump_background("p-9", done(3));
    assert_eq!(
        print_doc(&r.list_processes(Some("y"))),
        r#"[{"cmd":["b"],"exit_code":3,"id":"p-1","pid":12,"running":false,"started_at_ms":6,"tag":null}]"#
    );
    assert_eq!((r.running_count(), r.running_count_for("x"), r.running_count_for("y")), (1, 1, 0));
    r.remove_for_sandbox("x");
    assert_eq!(print_doc(&r.list_processes(Some("x"))), "[]");
    assert_eq!(r.procs.len(), 1);
    assert_eq!(r.alloc_id(), "p-2");
}

#[test]
fn ending_a_process_is_idempotent_and_stays_in_its_sandbox() {
    let mut r = ProcRegistry::default();
    r.start_background(&spec(r#"{"cmd":"a"}"#), 11, 5, Some("x"));
    let (kill, reply) = handle_process_delete(&mut r, "p-0", Some("y"));
    assert_eq!((kill, r.procs.len()), (None, 1));
    assert_eq!(print_doc(&reply.body), r#"{"id":"p-0","ok":true}"#);
    let (kill, _) = handle_process_delete(&mut r, "p-0", Some("x"));
    assert_eq!((kill, r.procs.len()), (Some(11), 0));
    let (kill, reply) = handle_process_delete(&mut r, "p-0", Some("x"));
    assert_eq!((kill, reply.status), (None, 200));
    r.start_background(&spec(r#"{"cmd":"a"}"#), 12, 5, None);
    r.pump_background("p-1", done(0));
    let (kill, _) = handle_process_delete(&mut r, "p-1", None);
    assert_eq!((kill, r.procs.len()), (None, 0));
    assert!(r.remove_by_id("p-1", None).is_none());
}

fn proc(n: usize, sandbox: &str, exit: Option<ExitInfo>) -> Proc {
    Proc {
        id: format!("q-{n}"),
        pid: n as u32,
        tag: None,
        cmd_json: Cmd::Line(String::new()),
        started_at_ms: 0,
        sandbox_id: Some(sandbox.to_string()),
        state: ProcState { exit },
    }
}

#[test]
fn finished_processes_are_bounded_for_each_sandbox() {
    let mut r = ProcRegistry::default();
    r.insert(proc(0, "other", Some(done(0))));
    r.insert(proc(1, "x", None));
    for n in 2..MAX_FINISHED_PROCS + 2 {
        r.insert(proc(n, "x", Some(done(0))));
    }
    assert_eq!(r.procs.len(), MAX_FINISHED_PROCS + 2);
    r.insert(proc(900, "x", Some(done(0))));
    r.insert(proc(901, "x", None));
    // The oldest finished one of that sandbox went, and nothing else.
    assert_eq!(r.procs.len(), MAX_FINISHED_PROCS + 3);
    assert_eq!(r.procs[0].id, "q-0");
    assert_eq!(r.procs[1].id, "q-1");
    assert_eq!(r.procs[2].id, "q-3");
    assert_eq!(r.running_count_for("x"), 2);
}

#[test]
fn every_sandbox_is_pruned_when_a_process_is_added() {
    let mut r = ProcRegistry::default();
    for n in 0..300 {
        r.insert(proc(n, "y", None));
    }
    for p in r.procs.iter_mut() {
        p.state.exit = Some(done(0));
    }
    r.insert(proc(300, "x", None));
    // Of the other sandbox the newest stay.
    assert_eq!(r.procs.len(), MAX_FINISHED_PROCS + 1);
    assert_eq!(r.procs[0].id, format!("q-{}", 300 - MAX_FINISHED_PROCS));
    assert_eq!(r.procs[MAX_FINISHED_PROCS - 1].id, "q-299");
    assert_eq!(r.procs[MAX_FINISHED_PROCS].id, "q-300");
}

#[test]
fn operations_are_counted() {
    let mut r = ProcRegistry::default();
    r.begin_op();
    r.begin_op();
    assert_eq!(r.active_ops(), 2);
    r.end_op();
    assert_eq!(r.active_ops(), 1);
    r.end_op();
    assert_eq!(r.active_ops(), 0);
}

#[test]
fn the_exit_status_of_a_command_is_left_alone() {
    let mut owned = OwnedPids::new();
    owned.track_owned(5);
    owned.track_owned(5);
    owned.track_owned(6);
    assert!(owned.is_owned(5) && owned.is_owned(6) && !owned.is_owned(7));
    assert_eq!(reap_step(Some(5), &owned, 0), ReapStep::Stop);
    assert_eq!(reap_step(Some(7), &owned, 255), ReapStep::Reap(7));
    assert_eq!(reap_step(Some(7), &owned, 256), ReapStep::Stop);
    assert_eq!(reap_step(Some(0), &owned, 0), ReapStep::Stop);
    assert_eq!(reap_step(None, &owned, 0), ReapStep::Stop);
    owned.untrack_owned(5);
    owned.untrack_owned(8);
    assert!(!owned.is_owned(5) && owned.is_owned(6));
    assert_eq!(reap_step(Some(5), &owned, 0), ReapStep::Reap(5));
}
