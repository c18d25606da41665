//! Commands: what a request asks to run, how it is run, and what is told of it.

use vstd::prelude::*;

use crate::http;
use crate::http::decode_lossy;
use crate::isolation;
use crate::isolation::{base_env, pre_exec_isolation, IsolationStep};
use crate::json;
use crate::json::{json_string_map, list_doc, object_doc, parse_json, print_doc, text_doc, Doc, Json};
use crate::number;
use crate::response;
use crate::response::{error_reply, object_reply, Reply, ResponseWriter};
use crate::sandboxes::SandboxEntry;
use crate::strmap;
use crate::strmap::StrMap;
use crate::text;

verus! {

/// The longest body of a request to run a command.
pub const MAX_EXEC_BODY: u64 = 16777216;

/// After this long without output a stream is kept open by a line of its own, in seconds.
pub const PING_INTERVAL_SECS: u64 = 15;

/// How long the output of a command that has ended is waited for, in milliseconds. A
/// child of it may hold the pipes open.
pub const OUTPUT_DRAIN_MS: u64 = 2000;

// ---------------------------------------------------------------------------
// Events
// ---------------------------------------------------------------------------

/// How a command ended.
#[derive(Clone, Copy, Debug, PartialEq, Eq, Structural)]
pub struct ExitInfo {
    pub exit_code: Option<i32>,
    pub signal: Option<i32>,
    pub timed_out: bool,
    pub duration_ms: i64,
}

/// What happens while a command runs.
pub enum Event {
    Stdout(String),
    Stderr(String),
    Exit(ExitInfo),
}

/// A number that may be missing.
pub open spec fn number_or_null(n: Option<i32>) -> json::JsonView {
    match n {
        Some(n) => json::JsonView::Int(n as int),
        None => json::JsonView::Null,
    }
}

/// A text that may be missing.
pub open spec fn text_or_null(s: Option<Seq<char>>) -> json::JsonView {
    match s {
        Some(s) => json::JsonView::Str(s),
        None => json::JsonView::Null,
    }
}

/// What a text that may be missing denotes.
pub open spec fn opt_text(s: Option<String>) -> Option<Seq<char>> {
    match s {
        Some(s) => Some(s@),
        None => None,
    }
}

/// A number that may be missing.
pub fn number_doc(n: Option<i32>) -> (r: Doc)
    ensures
        r.tree() == number_or_null(n),
{
    match n {
        Some(n) => Doc::Int(n as i64),
        None => Doc::Null,
    }
}

/// A text that may be missing.
pub fn opt_text_doc(s: &Option<String>) -> (r: Doc)
    ensures
        r.tree() == text_or_null(opt_text(*s)),
{
    match s {
        Some(s) => text_doc(s.as_str()),
        None => Doc::Null,
    }
}

impl Event {
    /// The event as the client sees it.
    pub open spec fn tree(&self) -> json::JsonView {
        match self {
            Event::Stdout(d) => json::object(
                seq![("event"@, json::JsonView::Str("stdout"@)), ("data"@, json::JsonView::Str(d@))],
            ),
            Event::Stderr(d) => json::object(
                seq![("event"@, json::JsonView::Str("stderr"@)), ("data"@, json::JsonView::Str(d@))],
            ),
            Event::Exit(info) => json::object(
                seq![
                    ("event"@, json::JsonView::Str("exit"@)),
                    ("exit_code"@, number_or_null(info.exit_code)),
                    ("signal"@, number_or_null(info.signal)),
                    ("timed_out"@, json::JsonView::Bool(info.timed_out)),
                    ("duration_ms"@, json::JsonView::Int(info.duration_ms as int)),
                ],
            ),
        }
    }

    fn doc(&self) -> (r: Doc)
        ensures
            r.tree() == self.tree(),
    {
        let mut members: Vec<(&'static str, Doc)> = Vec::new();
        match self {
            Event::Stdout(d) => {
                members.push(("event", text_doc("stdout")));
                members.push(("data", text_doc(d.as_str())));
                assert(json::doc_members(members@) =~= seq![
                    ("event"@, json::JsonView::Str("stdout"@)),
                    ("data"@, json::JsonView::Str(d@)),
                ]);
            },
            Event::Stderr(d) => {
                members.push(("event", text_doc("stderr")));
                members.push(("data", text_doc(d.as_str())));
                assert(json::doc_members(members@) =~= seq![
                    ("event"@, json::JsonView::Str("stderr"@)),
                    ("data"@, json::JsonView::Str(d@)),
                ]);
            },
            Event::Exit(info) => {
                members.push(("event", text_doc("exit")));
                members.push(("exit_code", number_doc(info.exit_code)));
                members.push(("signal", number_doc(info.signal)));
                members.push(("timed_out", Doc::Bool(info.timed_out)));
                members.push(("duration_ms", Doc::Int(info.duration_ms)));
                assert(json::doc_members(members@) =~= seq![
                    ("event"@, json::JsonView::Str("exit"@)),
                    ("exit_code"@, number_or_null(info.exit_code)),
                    ("signal"@, number_or_null(info.signal)),
                    ("timed_out"@, json::JsonView::Bool(info.timed_out)),
                    ("duration_ms"@, json::JsonView::Int(info.duration_ms as int)),
                ]);
            },
        }
        object_doc(members)
    }

    /// The line that tells the client of the event.
    pub fn to_line(&self) -> (r: String)
        ensures
            r@ == json::json_text(self.tree()).push('\n'),
    {
        let mut line = print_doc(&self.doc());
        line.push('\n');
        line
    }
}

/// The event for output that was read. What is not well-formed is replaced, because an
/// event holds text.
pub fn output_event(bytes: &[u8], stderr: bool) -> (r: Event)
    ensures
        match r {
            Event::Stdout(d) => !stderr && d@ == http::text_of_bytes(bytes@),
            Event::Stderr(d) => stderr && d@ == http::text_of_bytes(bytes@),
            Event::Exit(_) => false,
        },
        vstd::utf8::valid_utf8(bytes@) ==> match r {
            Event::Stdout(d) => d@ == vstd::utf8::decode_utf8(bytes@),
            Event::Stderr(d) => d@ == vstd::utf8::decode_utf8(bytes@),
            Event::Exit(_) => false,
        },
{
    let d = decode_lossy(bytes);
    if stderr {
        Event::Stderr(d)
    } else {
        Event::Stdout(d)
    }
}

/// The event that opens a stream, as the client sees it.
pub open spec fn start_tree(pid: u32) -> json::JsonView {
    json::object(
        seq![("event"@, json::JsonView::Str("start"@)), ("pid"@, json::JsonView::Int(pid as int))],
    )
}

/// The line that opens a stream.
pub fn start_line(pid: u32) -> (r: String)
    ensures
        r@ == json::json_text(start_tree(pid)).push('\n'),
{
    let mut members: Vec<(&'static str, Doc)> = Vec::new();
    members.push(("event", text_doc("start")));
    members.push(("pid", Doc::Uint(pid as u64)));
    assert(json::doc_members(members@) =~= seq![
        ("event"@, json::JsonView::Str("start"@)),
        ("pid"@, json::JsonView::Int(pid as int)),
    ]);
    let mut line = print_doc(&object_doc(members));
    line.push('\n');
    line
}

// ---------------------------------------------------------------------------
// What is to be run
// ---------------------------------------------------------------------------

/// A command as the client gave it: a line for the shell, or a program and its arguments.
pub enum Cmd {
    Line(String),
    Argv(Vec<String>),
}

/// What texts look like in a document.
pub open spec fn text_items(s: Seq<Seq<char>>) -> Seq<json::JsonView> {
    Seq::new(s.len(), |i: int| json::JsonView::Str(s[i]))
}

impl Cmd {
    /// The command as the client gave it.
    pub open spec fn tree(&self) -> json::JsonView {
        match self {
            Cmd::Line(s) => json::JsonView::Str(s@),
            Cmd::Argv(v) => json::JsonView::Array(text_items(text::strings(v@))),
        }
    }

    /// The command as the client gave it.
    pub fn doc(&self) -> (r: Doc)
        ensures
            r.tree() == self.tree(),
    {
        match self {
            Cmd::Line(s) => text_doc(s.as_str()),
            Cmd::Argv(v) => {
                let mut items: Vec<Doc> = Vec::new();
                let mut i: usize = 0;
                while i < v.len()
                    invariant
                        i <= v@.len(),
                        items@.len() == i,
                        forall|j: int|
                            0 <= j < i ==> (#[trigger] items@[j]).tree() == json::JsonView::Str(v@[j]@),
                    decreases v@.len() - i,
                {
                    items.push(text_doc(v[i].as_str()));
                    i += 1;
                }
                assert(json::doc_trees(items@) =~= text_items(text::strings(v@)));
                list_doc(items)
            },
        }
    }

    /// The same command.
    pub fn copy(&self) -> (r: Cmd)
        ensures
            r.tree() == self.tree(),
    {
        match self {
            Cmd::Line(s) => Cmd::Line(s.clone()),
            Cmd::Argv(v) => {
                let c = copy_texts(v);
                Cmd::Argv(c)
            },
        }
    }
}

/// The same texts.
pub fn copy_texts(v: &Vec<String>) -> (r: Vec<String>)
    ensures
        text::strings(r@) == text::strings(v@),
        r@.len() == v@.len(),
{
    let mut r: Vec<String> = Vec::new();
    let mut i: usize = 0;
    while i < v.len()
        invariant
            i <= v@.len(),
            r@.len() == i,
            forall|j: int| 0 <= j < i ==> (#[trigger] r@[j])@ == v@[j]@,
        decreases v@.len() - i,
    {
        r.push(v[i].clone());
        i += 1;
    }
    assert(text::strings(r@) =~= text::strings(v@));
    r
}

/// Whether every item is a text.
pub open spec fn all_texts(items: Seq<json::JsonView>) -> bool {
    forall|i: int| 0 <= i < items.len() ==> (#[trigger] items[i]) is Str
}

/// The texts of items.
pub open spec fn item_texts(items: Seq<json::JsonView>) -> Seq<Seq<char>> {
    Seq::new(items.len(), |i: int| items[i]->Str_0)
}

/// The program and the arguments that a document asks to run, or why it is refused.
/// `shell` says which of the two forms `cmd` has; without it the form of `cmd` decides.
pub open spec fn argv_of(tree: json::JsonView) -> Result<Seq<Seq<char>>, Seq<char>> {
    let shell = json::member_bool(tree, "shell"@);
    match json::member(tree, "cmd"@) {
        Some(json::JsonView::Str(s)) => if shell != Some(false) {
            Ok(seq!["/bin/sh"@, "-c"@, s])
        } else {
            Err("shell=false requires 'cmd' to be an array of strings"@)
        },
        Some(json::JsonView::Array(items)) => if shell == Some(true) {
            Err("shell=true requires 'cmd' to be a string"@)
        } else if !all_texts(items) {
            Err("cmd array items must be strings"@)
        } else if items.len() == 0 {
            Err("cmd array must not be empty"@)
        } else {
            Ok(item_texts(items))
        },
        _ => if shell == Some(true) {
            Err("shell=true requires 'cmd' to be a string"@)
        } else if shell == Some(false) {
            Err("shell=false requires 'cmd' to be an array of strings"@)
        } else {
            Err("missing 'cmd' (string or array of strings)"@)
        },
    }
}

/// What a request asks to run.
pub struct ExecSpec {
    /// The program and its arguments.
    pub argv: Vec<String>,
    /// The command as the client gave it.
    pub cmd_json: Cmd,
    pub env: StrMap,
    pub cwd: Option<String>,
    /// The time that the command may take, in seconds, as a numeral.
    pub timeout_secs: Option<String>,
    pub stdin: Option<String>,
    pub background: bool,
    pub tag: Option<String>,
}

impl ExecSpec {
    /// Whether this is what a document asks to run.
    pub open spec fn is_what(self, tree: json::JsonView) -> bool {
        &&& argv_of(tree) == Ok::<Seq<Seq<char>>, Seq<char>>(text::strings(self.argv@))
        &&& self.argv@.len() > 0
        &&& json::member(tree, "cmd"@) == Some(self.cmd_json.tree())
        &&& strmap::distinct_keys(self.env@)
        &&& forall|k: Seq<char>| #[trigger]
            strmap::lookup(self.env@, k) == json::text_in(tree, "env"@, k)
        &&& opt_text(self.cwd) == json::member_text(tree, "cwd"@)
        &&& opt_text(self.timeout_secs) == json::member_number(tree, "timeout"@)
        &&& opt_text(self.stdin) == json::member_text(tree, "stdin"@)
        &&& self.background == (json::member_bool(tree, "background"@) == Some(true))
        &&& opt_text(self.tag) == json::member_text(tree, "tag"@)
    }

    /// Reads what a document asks to run.
    pub fn from_json(body: &Json) -> (r: Result<ExecSpec, String>)
        ensures
            match r {
                Ok(spec) => spec.is_what(body.tree()),
                Err(m) => argv_of(body.tree()) == Err::<Seq<Seq<char>>, Seq<char>>(m@),
            },
    {
        let shell = body.bool_at("shell");
        let (argv, cmd_json): (Vec<String>, Cmd) = match read_cmd(body, shell) {
            Ok(pair) => pair,
            Err(m) => return Err(m.to_owned()),
        };
        Ok(
            ExecSpec {
                argv,
                cmd_json,
                env: json_string_map(body, "env"),
                cwd: body.text_at("cwd"),
                timeout_secs: body.number_at("timeout"),
                stdin: body.text_at("stdin"),
                background: body.bool_at("background").unwrap_or(false),
                tag: body.text_at("tag"),
            },
        )
    }
}

fn read_items(items: &Vec<Json>) -> (r: Option<Vec<String>>)
    ensures
        match r {
            Some(v) => all_texts(json::item_trees(items@)) && text::strings(v@) == item_texts(
                json::item_trees(items@),
            ),
            None => !all_texts(json::item_trees(items@)),
        },
{
    let ghost trees = json::item_trees(items@);
    let mut v: Vec<String> = Vec::new();
    let mut i: usize = 0;
    while i < items.len()
        invariant
            i <= items@.len(),
            trees == json::item_trees(items@),
            v@.len() == i,
            forall|j: int| 0 <= j < i ==> (#[trigger] trees[j]) == json::JsonView::Str(v@[j]@),
        decreases items@.len() - i,
    {
        match &items[i] {
            Json::Str(s) => {
                v.push(s.clone());
                assert(trees[i as int] == json::JsonView::Str(s@));
            },
            _ => {
                assert(!(trees[i as int] is Str));
                return None;
            },
        }
        i += 1;
    }
    assert forall|j: int| 0 <= j < trees.len() implies (#[trigger] trees[j]) is Str by {}
    assert(text::strings(v@) =~= item_texts(trees));
    Some(v)
}

fn read_cmd(body: &Json, shell: Option<bool>) -> (r: Result<(Vec<String>, Cmd), &'static str>)
    requires
        shell == json::member_bool(body.tree(), "shell"@),
    ensures
        match r {
            Ok((argv, cmd)) => argv_of(body.tree()) == Ok::<Seq<Seq<char>>, Seq<char>>(
                text::strings(argv@),
            ) && argv@.len() > 0 && json::member(body.tree(), "cmd"@) == Some(cmd.tree()),
            Err(m) => argv_of(body.tree()) == Err::<Seq<Seq<char>>, Seq<char>>(m@),
        },
{
    let given = match body.get("cmd") {
        Some(given) => given,
        None => {
            return match shell {
                Some(true) => Err("shell=true requires 'cmd' to be a string"),
                Some(false) => Err("shell=false requires 'cmd' to be an array of strings"),
                None => Err("missing 'cmd' (string or array of strings)"),
            };
        },
    };
    proof {
        json::lemma_json_tree(*given);
    }
    match given {
        Json::Str(s) => {
            if let Some(false) = shell {
                return Err("shell=false requires 'cmd' to be an array of strings");
            }
            let mut argv: Vec<String> = Vec::new();
            argv.push("/bin/sh".to_owned());
            argv.push("-c".to_owned());
            argv.push(s.clone());
            assert(text::strings(argv@) =~= seq!["/bin/sh"@, "-c"@, s@]);
            Ok((argv, Cmd::Line(s.clone())))
        },
        Json::Array(items) => {
            if let Some(true) = shell {
                return Err("shell=true requires 'cmd' to be a string");
            }
            match read_items(items) {
                None => Err("cmd array items must be strings"),
                Some(argv) => {
                    assert(text::strings(argv@).len() == items@.len());
                    if argv.len() == 0 {
                        return Err("cmd array must not be empty");
                    }
                    let cmd = copy_texts(&argv);
                    assert(text_items(text::strings(cmd@)) =~= json::item_trees(items@));
                    Ok((argv, Cmd::Argv(cmd)))
                },
            }
        },
        _ => match shell {
            Some(true) => Err("shell=true requires 'cmd' to be a string"),
            Some(false) => Err("shell=false requires 'cmd' to be an array of strings"),
            None => Err("missing 'cmd' (string or array of strings)"),
        },
    }
}

// ---------------------------------------------------------------------------
// Requests
// ---------------------------------------------------------------------------

/// The message for a body that is no document.
pub open spec fn invalid_json_text(error: Seq<char>) -> Seq<char> {
    "invalid JSON body: "@ + error
}

/// Why the body of a request to run a command is refused.
pub open spec fn exec_problem(body: Seq<u8>) -> Option<Seq<char>> {
    match json::json_parsed(body) {
        Err(e) => Some(invalid_json_text(e)),
        Ok(tree) => match argv_of(tree) {
            Err(m) => Some(m),
            Ok(_) => None,
        },
    }
}

/// Reads the body of a request to run a command.
pub fn handle_exec(body: &[u8]) -> (r: Result<ExecSpec, Reply>)
    ensures
        match r {
            Ok(spec) => exec_problem(body@) is None && spec.is_what(json::json_parsed(body@)->Ok_0),
            Err(reply) => exec_problem(body@) is Some && reply@ == response::error_view(
                400,
                exec_problem(body@)->0,
            ),
        },
{
    let json = match parse_json(body) {
        Ok(json) => json,
        Err(e) => {
            let mut m: String = "invalid JSON body: ".to_owned();
            m.append(e.as_str());
            return Err(error_reply(400, m.as_str()));
        },
    };
    match ExecSpec::from_json(&json) {
        Ok(spec) => Ok(spec),
        Err(m) => Err(error_reply(400, m.as_str())),
    }
}

/// Reads the body of a request to start a background process, which says the same as one
/// to run a command, but for `background`.
pub fn handle_process_start(body: &[u8]) -> (r: Result<ExecSpec, Reply>)
    ensures
        match r {
            Ok(spec) => spec.background && exec_problem(body@) is None && (ExecSpec {
                background: json::member_bool(json::json_parsed(body@)->Ok_0, "background"@) == Some(
                    true,
                ),
                ..spec
            }).is_what(json::json_parsed(body@)->Ok_0),
            Err(reply) => exec_problem(body@) is Some && reply@ == response::error_view(
                400,
                exec_problem(body@)->0,
            ),
        },
{
    match handle_exec(body) {
        Ok(mut spec) => {
            let ghost asked = spec;
            spec.background = true;
            assert((ExecSpec { background: asked.background, ..spec }) == asked);
            Ok(spec)
        },
        Err(reply) => Err(reply),
    }
}

/// The reply when a command was started in the background.
pub fn background_reply(pid: u32, tag: &Option<String>) -> (r: Reply)
    ensures
        r@ == response::ok_view(
            seq![("pid"@, json::JsonView::Int(pid as int)), ("tag"@, text_or_null(opt_text(*tag)))],
        ),
        r@.status == 200,
        json::member(r@.body, "pid"@) == Some(json::JsonView::Int(pid as int)),
        tag matches Some(t) ==> json::member(r@.body, "tag"@) == Some(json::JsonView::Str(t@)),
        tag is None ==> json::member(r@.body, "tag"@) == Some(json::JsonView::Null),
{
    proof {
        reveal_strlit("pid");
        reveal_strlit("tag");
        assert("pid"@.len() == 3);
        assert("tag"@.len() == 3);
        assert("pid"@[0] != "tag"@[0]);
        json::lemma_object_2(
            ("pid"@, json::JsonView::Int(pid as int)),
            ("tag"@, text_or_null(opt_text(*tag))),
        );
    }
    let mut members: Vec<(&'static str, Doc)> = Vec::new();
    members.push(("pid", Doc::Uint(pid as u64)));
    members.push(("tag", opt_text_doc(tag)));
    assert(json::doc_members(members@) =~= seq![
        ("pid"@, json::JsonView::Int(pid as int)),
        ("tag"@, text_or_null(opt_text(*tag))),
    ]);
    object_reply(200, members)
}

/// The reply when a background process was started.
pub fn process_reply(id: &str, pid: u32, cmd: &Cmd, tag: &Option<String>) -> (r: Reply)
    ensures
        r@ == response::ok_view(
            seq![
                ("id"@, json::JsonView::Str(id@)),
                ("pid"@, json::JsonView::Int(pid as int)),
                ("cmd"@, cmd.tree()),
                ("tag"@, text_or_null(opt_text(*tag))),
            ],
        ),
        r@.status == 200,
        json::member(r@.body, "id"@) == Some(json::JsonView::Str(id@)),
        json::member(r@.body, "pid"@) == Some(json::JsonView::Int(pid as int)),
        json::member(r@.body, "cmd"@) == Some(cmd.tree()),
        tag matches Some(t) ==> json::member(r@.body, "tag"@) == Some(json::JsonView::Str(t@)),
        tag is None ==> json::member(r@.body, "tag"@) == Some(json::JsonView::Null),
{
    proof {
        reveal_strlit("id");
        reveal_strlit("pid");
        reveal_strlit("cmd");
        reveal_strlit("tag");
        assert("id"@.len() == 2);
        assert("pid"@.len() == 3);
        assert("cmd"@.len() == 3);
        assert("tag"@.len() == 3);
        assert("pid"@[0] != "cmd"@[0]);
        assert("pid"@[0] != "tag"@[0]);
        assert("cmd"@[0] != "tag"@[0]);
        json::lemma_object_4(
            ("id"@, json::JsonView::Str(id@)),
            ("pid"@, json::JsonView::Int(pid as int)),
            ("cmd"@, cmd.tree()),
            ("tag"@, text_or_null(opt_text(*tag))),
        );
    }
    let mut members: Vec<(&'static str, Doc)> = Vec::new();
    members.push(("id", text_doc(id)));
    members.push(("pid", Doc::Uint(pid as u64)));
    members.push(("cmd", cmd.doc()));
    members.push(("tag", opt_text_doc(tag)));
    assert(json::doc_members(members@) =~= seq![
        ("id"@, json::JsonView::Str(id@)),
        ("pid"@, json::JsonView::Int(pid as int)),
        ("cmd"@, cmd.tree()),
        ("tag"@, text_or_null(opt_text(*tag))),
    ]);
    object_reply(200, members)
}

// ---------------------------------------------------------------------------
// How a command is run
// ---------------------------------------------------------------------------

/// How a command is run. It always leads a process group of its own, and its output is
/// always read.
pub struct CommandPlan {
    pub program: String,
    pub args: Vec<String>,
    /// Whether it gets its input through a pipe; otherwise it gets none.
    pub stdin_piped: bool,
    /// Whether nothing of the server's own environment is passed on.
    pub clear_env: bool,
    /// What is put into its environment, in this order.
    pub env: Vec<(String, String)>,
    /// The uid and gid under which it runs, where it is not the server's own.
    pub uid: Option<u32>,
    pub cwd: Option<String>,
    /// What is done between the fork and the start.
    pub isolation: Vec<IsolationStep>,
}

/// How a command is run: in a sandbox under its uid, with its environment and its home
/// and behind its isolation; otherwise as the server itself runs.
pub fn plan_command(spec: &ExecSpec, sandbox: Option<&SandboxEntry>) -> (r: CommandPlan)
    requires
        spec.argv@.len() > 0,
    ensures
        r.program@ == spec.argv@[0]@,
        text::strings(r.args@) == text::strings(spec.argv@).skip(1),
        r.args@.len() == spec.argv@.len() - 1,
        forall|i: int| 0 <= i < r.args@.len() ==> (#[trigger] r.args@[i])@ == spec.argv@[i + 1]@,
        r.stdin_piped == (spec.stdin is Some),
        sandbox matches Some(e) ==> r.uid == Some(e.uid) && r.cwd is Some && r.cwd->0@ == (
        match spec.cwd {
            Some(d) => d@,
            None => e.home@,
        }),
        sandbox is None ==> (r.cwd is Some <==> spec.cwd is Some) && (spec.cwd matches Some(d)
            ==> r.cwd->0@ == d@),
        match sandbox {
            Some(e) => {
                &&& r.clear_env
                &&& strmap::pairs(r.env@) == isolation::env_of(e@) + spec.env@
                &&& r.uid == Some(e@.uid)
                &&& opt_text(r.cwd) == Some(
                    match spec.cwd {
                        Some(d) => d@,
                        None => e@.home,
                    },
                )
                &&& r.isolation@ == isolation::isolation_of(e@)
            },
            None => {
                &&& !r.clear_env
                &&& strmap::pairs(r.env@) == spec.env@
                &&& r.uid is None
                &&& opt_text(r.cwd) == opt_text(spec.cwd)
                &&& r.isolation@.len() == 0
            },
        },
{
    let program = spec.argv[0].clone();
    let mut args: Vec<String> = Vec::new();
    let mut i: usize = 1;
    while i < spec.argv.len()
        invariant
            1 <= i <= spec.argv@.len(),
            args@.len() == i - 1,
            forall|j: int| 0 <= j < i - 1 ==> (#[trigger] args@[j])@ == spec.argv@[j + 1]@,
        decreases spec.argv@.len() - i,
    {
        args.push(spec.argv[i].clone());
        i += 1;
    }
    assert(text::strings(args@) =~= text::strings(spec.argv@).skip(1));
    let stdin_piped = spec.stdin.is_some();
    let mut given = spec.env.copy();
    let cwd: Option<String> = match &spec.cwd {
        Some(d) => Some(d.clone()),
        None => None,
    };
    match sandbox {
        Some(e) => {
            let mut env = base_env(e);
            let ghost base = strmap::pairs(env@);
            env.append(&mut given.entries);
            assert(strmap::pairs(env@) =~= base + spec.env@);
            let dir = match cwd {
                Some(d) => d,
                None => e.home.clone(),
            };
            CommandPlan {
                program,
                args,
                stdin_piped,
                clear_env: true,
                env,
                uid: Some(e.uid),
                cwd: Some(dir),
                isolation: pre_exec_isolation(e),
            }
        },
        None => CommandPlan {
            program,
            args,
            stdin_piped,
            clear_env: false,
            env: given.entries,
            uid: None,
            cwd,
            isolation: Vec::new(),
        },
    }
}

/// The message when a command could not be started.
pub fn spawn_failed(program: &str, error: &str) -> (r: String)
    ensures
        r@ == "failed to spawn '"@ + program@ + "': "@ + error@,
{
    let mut m: String = "failed to spawn '".to_owned();
    m.append(program);
    m.append("': ");
    m.append(error);
    m
}

/// How long the watcher of a command waits, in milliseconds: until the time that the
/// command may take is over.
pub fn time_left(started_at: i64, timeout_ms: i64, now: i64) -> (r: u64)
    ensures
        r == (if started_at.wrapping_add(timeout_ms).wrapping_sub(now) < 0 {
            0
        } else {
            started_at.wrapping_add(timeout_ms).wrapping_sub(now) as int
        }),
        -9223372036854775808 <= started_at + timeout_ms <= 9223372036854775807
            && -9223372036854775808 <= started_at + timeout_ms - now <= 9223372036854775807 ==> r
            == (if started_at + timeout_ms <= now {
            0
        } else {
            started_at + timeout_ms - now
        }),
{
    let left: i64 = started_at.wrapping_add(timeout_ms).wrapping_sub(now);
    if left < 0 {
        0
    } else {
        left as u64
    }
}

/// How a command ended, given its exit code and its signal, or nothing when it could not
/// be waited for.
pub open spec fn ended(
    status: Option<(Option<i32>, Option<i32>)>,
    timed_out: bool,
    started_at: i64,
    now: i64,
) -> ExitInfo {
    match status {
        Some((exit_code, signal)) => ExitInfo {
            exit_code,
            signal,
            timed_out,
            duration_ms: now.wrapping_sub(started_at),
        },
        None => ExitInfo {
            exit_code: None,
            signal: None,
            timed_out: false,
            duration_ms: now.wrapping_sub(started_at),
        },
    }
}

/// How a command ended.
pub fn exit_info(
    status: Option<(Option<i32>, Option<i32>)>,
    timed_out: bool,
    started_at: i64,
    now: i64,
) -> (r: ExitInfo)
    ensures
        r == ended(status, timed_out, started_at, now),
        status matches Some((code, signal)) ==> r.exit_code == code && r.signal == signal
            && r.timed_out == timed_out,
        status is None ==> r.exit_code is None && r.signal is None && !r.timed_out,
        -9223372036854775808 <= now - started_at <= 9223372036854775807 ==> r.duration_ms == now
            - started_at,
{
    let duration_ms: i64 = now.wrapping_sub(started_at);
    match status {
        Some((exit_code, signal)) => ExitInfo { exit_code, signal, timed_out, duration_ms },
        None => ExitInfo { exit_code: None, signal: None, timed_out: false, duration_ms },
    }
}

/// A command that was started and is waited for.
#[derive(Clone, Copy, Debug, PartialEq, Eq, Structural)]
pub struct CommandWatch {
    pub pid: u32,
    pub started_at: i64,
    /// It was killed because its time was over.
    pub timed_out: bool,
    /// How it ended, once it did.
    pub exit: Option<ExitInfo>,
    /// The client was told how it ended.
    pub reported: bool,
}

impl CommandWatch {
    /// A command that runs.
    pub fn new(pid: u32, started_at: i64) -> (r: CommandWatch)
        ensures
            r == (CommandWatch { pid, started_at, timed_out: false, exit: None, reported: false }),
    {
        CommandWatch { pid, started_at, timed_out: false, exit: None, reported: false }
    }

    /// The time of the command is over. Gives the pid whose process tree is to be killed:
    /// none when the command has ended, because its pid may belong to something else, and
    /// none when it is no longer there.
    pub fn on_deadline(&mut self, alive: bool) -> (r: Option<u32>)
        ensures
            old(self).exit is None && alive ==> r == Some(old(self).pid) && *final(self) == (
            CommandWatch { timed_out: true, ..*old(self) }),
            !(old(self).exit is None && alive) ==> r is None && *final(self) == *old(self),
    {
        if self.exit.is_none() && alive {
            self.timed_out = true;
            Some(self.pid)
        } else {
            None
        }
    }

    /// The command was waited for.
    pub fn on_exit(&mut self, status: Option<(Option<i32>, Option<i32>)>, now: i64)
        ensures
            *final(self) == (CommandWatch {
                exit: Some(ended(status, old(self).timed_out, old(self).started_at, now)),
                ..*old(self)
            }),
            final(self).exit is Some,
            status matches Some((code, signal)) ==> final(self).exit->0.exit_code == code
                && final(self).exit->0.signal == signal && final(self).exit->0.timed_out
                == old(self).timed_out,
            status is None ==> final(self).exit->0.exit_code is None
                && final(self).exit->0.signal is None && !final(self).exit->0.timed_out,
            -9223372036854775808 <= now - old(self).started_at <= 9223372036854775807
                ==> final(self).exit->0.duration_ms == now - old(self).started_at,
    {
        self.exit = Some(exit_info(status, self.timed_out, self.started_at, now));
    }

    /// The output of the command is drained. Gives what the client is told, once, and not
    /// before the command was waited for.
    pub fn wait_and_report(&mut self) -> (r: Option<ExitInfo>)
        ensures
            !old(self).reported ==> r == old(self).exit,
            old(self).reported ==> r is None,
            *final(self) == (CommandWatch {
                reported: old(self).reported || old(self).exit is Some,
                ..*old(self)
            }),
    {
        if self.reported {
            return None;
        }
        if self.exit.is_some() {
            self.reported = true;
        }
        self.exit
    }
}

// ---------------------------------------------------------------------------
// The stream of events
// ---------------------------------------------------------------------------

/// The line that keeps a silent stream open.
pub open spec fn ping_text() -> Seq<char> {
    "{\"event\":\"ping\"}\n"@
}

/// What came while the stream waited.
pub enum StreamInput {
    Event(Event),
    /// Nothing for a while.
    Silence,
    /// Nothing will come any more.
    Closed,
}

/// How the stream goes on.
#[derive(Clone, Copy, Debug, PartialEq, Eq, Structural)]
pub enum StreamStep {
    /// The command showed that it is alive; wait for more.
    Active,
    /// Wait for more.
    Wait,
    /// The command has ended, which also shows that it was alive.
    Ended,
    /// There is nothing to wait for.
    Stop,
}

/// What goes out for what came.
pub open spec fn stream_bytes(input: StreamInput) -> Seq<u8> {
    match input {
        StreamInput::Event(e) => response::chunk_bytes(
            vstd::utf8::encode_utf8(json::json_text(e.tree()).push('\n')),
        ),
        StreamInput::Silence => response::chunk_bytes(vstd::utf8::encode_utf8(ping_text())),
        StreamInput::Closed => Seq::empty(),
    }
}

/// Writes what came to the stream and says how it goes on.
pub fn stream_events(input: &StreamInput, resp: &mut ResponseWriter) -> (r: StreamStep)
    ensures
        final(resp).wrote(*old(resp), stream_bytes(*input)),
        final(resp).started == old(resp).started,
        final(resp).chunked == old(resp).chunked,
        r == (match *input {
            StreamInput::Event(e) => if e is Exit {
                StreamStep::Ended
            } else {
                StreamStep::Active
            },
            StreamInput::Silence => StreamStep::Wait,
            StreamInput::Closed => StreamStep::Stop,
        }),
{
    match input {
        StreamInput::Event(e) => {
            let line = e.to_line();
            resp.chunk(line.as_str().as_bytes());
            match e {
                Event::Exit(_) => StreamStep::Ended,
                _ => StreamStep::Active,
            }
        },
        StreamInput::Silence => {
            resp.chunk("{\"event\":\"ping\"}\n".as_bytes());
            StreamStep::Wait
        },
        StreamInput::Closed => {
            assert(resp.out@ + Seq::<u8>::empty() =~= resp.out@);
            StreamStep::Stop
        },
    }
}

// ---------------------------------------------------------------------------
// What is told, and what is run
// ---------------------------------------------------------------------------

/// How a command ended is what the wait gave: its exit code and its signal, whatever they
/// are, whether its time was over, and how long it ran. Of a command that could not be waited
/// for only the time is known.
pub proof fn law_end_is_what_the_wait_gave(
    code: Option<i32>,
    signal: Option<i32>,
    timed_out: bool,
    started_at: i64,
    now: i64,
)
    ensures
        ended(Some((code, signal)), timed_out, started_at, now).exit_code == code,
        ended(Some((code, signal)), timed_out, started_at, now).signal == signal,
        ended(Some((code, signal)), timed_out, started_at, now).timed_out == timed_out,
        ended(Some((code, signal)), timed_out, started_at, now).duration_ms == now.wrapping_sub(
            started_at,
        ),
        -9223372036854775808 <= now - started_at <= 9223372036854775807 ==> ended(
            Some((code, signal)),
            timed_out,
            started_at,
            now,
        ).duration_ms == now - started_at,
        ended(None, timed_out, started_at, now).exit_code is None,
        ended(None, timed_out, started_at, now).signal is None,
        !ended(None, timed_out, started_at, now).timed_out,
        ended(None, timed_out, started_at, now).duration_ms == now.wrapping_sub(started_at),
        -9223372036854775808 <= now - started_at <= 9223372036854775807 ==> ended(
            None,
            timed_out,
            started_at,
            now,
        ).duration_ms == now - started_at,
{
}

/// The client is told how a command ended: each part under its own key, a number as that
/// number and a missing one as null.
pub proof fn law_exit_event_tells_how_it_ended(info: ExitInfo)
    ensures
        json::member(Event::Exit(info).tree(), "event"@) == Some(json::JsonView::Str("exit"@)),
        info.exit_code matches Some(n) ==> json::member(Event::Exit(info).tree(), "exit_code"@)
            == Some(json::JsonView::Int(n as int)),
        info.exit_code is None ==> json::member(Event::Exit(info).tree(), "exit_code"@) == Some(
            json::JsonView::Null,
        ),
        info.signal matches Some(n) ==> json::member(Event::Exit(info).tree(), "signal"@) == Some(
            json::JsonView::Int(n as int),
        ),
        info.signal is None ==> json::member(Event::Exit(info).tree(), "signal"@) == Some(
            json::JsonView::Null,
        ),
        json::member(Event::Exit(info).tree(), "timed_out"@) == Some(
            json::JsonView::Bool(info.timed_out),
        ),
        json::member(Event::Exit(info).tree(), "duration_ms"@) == Some(
            json::JsonView::Int(info.duration_ms as int),
        ),
{
    reveal_strlit("event");
    reveal_strlit("exit_code");
    reveal_strlit("signal");
    reveal_strlit("timed_out");
    reveal_strlit("duration_ms");
    assert("event"@.len() == 5);
    assert("exit_code"@.len() == 9);
    assert("signal"@.len() == 6);
    assert("timed_out"@.len() == 9);
    assert("duration_ms"@.len() == 11);
    assert("exit_code"@[0] != "timed_out"@[0]);
    json::lemma_object_5(
        ("event"@, json::JsonView::Str("exit"@)),
        ("exit_code"@, number_or_null(info.exit_code)),
        ("signal"@, number_or_null(info.signal)),
        ("timed_out"@, json::JsonView::Bool(info.timed_out)),
        ("duration_ms"@, json::JsonView::Int(info.duration_ms as int)),
    );
}

/// The client gets what a command wrote, and is told which of its two outputs it came from.
pub proof fn law_output_event_carries_the_output(d: String)
    ensures
        json::member(Event::Stdout(d).tree(), "event"@) == Some(json::JsonView::Str("stdout"@)),
        json::member(Event::Stdout(d).tree(), "data"@) == Some(json::JsonView::Str(d@)),
        json::member(Event::Stderr(d).tree(), "event"@) == Some(json::JsonView::Str("stderr"@)),
        json::member(Event::Stderr(d).tree(), "data"@) == Some(json::JsonView::Str(d@)),
{
    reveal_strlit("event");
    reveal_strlit("data");
    assert("event"@.len() == 5);
    assert("data"@.len() == 4);
    json::lemma_object_2(
        ("event"@, json::JsonView::Str("stdout"@)),
        ("data"@, json::JsonView::Str(d@)),
    );
    json::lemma_object_2(
        ("event"@, json::JsonView::Str("stderr"@)),
        ("data"@, json::JsonView::Str(d@)),
    );
}

/// A stream opens with the pid of its command.
pub proof fn law_start_event_gives_the_pid(pid: u32)
    ensures
        json::member(start_tree(pid), "event"@) == Some(json::JsonView::Str("start"@)),
        json::member(start_tree(pid), "pid"@) == Some(json::JsonView::Int(pid as int)),
{
    reveal_strlit("event");
    reveal_strlit("pid");
    assert("event"@.len() == 5);
    assert("pid"@.len() == 3);
    json::lemma_object_2(
        ("event"@, json::JsonView::Str("start"@)),
        ("pid"@, json::JsonView::Int(pid as int)),
    );
}

/// A command that is one text is handed to the shell as it is, and one that is a list of
/// texts is run as it is: the program first, then every argument in its place. `shell` can
/// only insist on the form that the command has.
pub proof fn law_command_is_run_as_given(tree: json::JsonView, line: Seq<char>, argv: Seq<Seq<char>>)
    ensures
        json::member(tree, "cmd"@) == Some(json::JsonView::Str(line)) && json::member_bool(
            tree,
            "shell"@,
        ) != Some(false) ==> {
            &&& argv_of(tree) is Ok
            &&& argv_of(tree)->Ok_0.len() == 3
            &&& argv_of(tree)->Ok_0[0] == "/bin/sh"@
            &&& argv_of(tree)->Ok_0[1] == "-c"@
            &&& argv_of(tree)->Ok_0[2] == line
        },
        json::member(tree, "cmd"@) == Some(json::JsonView::Str(line)) && json::member_bool(
            tree,
            "shell"@,
        ) == Some(false) ==> argv_of(tree) is Err,
        json::member(tree, "cmd"@) == Some(
            json::JsonView::Array(argv.map_values(|s: Seq<char>| json::JsonView::Str(s))),
        ) && argv.len() > 0 && json::member_bool(tree, "shell"@) != Some(true) ==> argv_of(tree)
            == Ok::<Seq<Seq<char>>, Seq<char>>(argv),
        argv_of(tree) is Ok ==> json::member(tree, "cmd"@) is Some && (json::member(
            tree,
            "cmd"@,
        )->0 is Str || json::member(tree, "cmd"@)->0 is Array) && argv_of(tree)->Ok_0.len() > 0,
        argv_of(tree) is Ok && json::member(tree, "cmd"@)->0 is Array ==> json::member_bool(
            tree,
            "shell"@,
        ) != Some(true) && json::member(tree, "cmd"@)->0->Array_0 == argv_of(
            tree,
        )->Ok_0.map_values(|s: Seq<char>| json::JsonView::Str(s)),
{
    let given = argv.map_values(|s: Seq<char>| json::JsonView::Str(s));
    assert(item_texts(given) =~= argv);
    if argv_of(tree) is Ok && json::member(tree, "cmd"@)->0 is Array {
        let items = json::member(tree, "cmd"@)->0->Array_0;
        assert(items =~= item_texts(items).map_values(|s: Seq<char>| json::JsonView::Str(s)));
    }
}

/// The members of a request to run something are read under their own keys: where to run it,
/// how long, what it reads, its tag, whether it goes to the background, and its environment,
/// which has the text of each key and no other key.
pub proof fn law_request_members_are_kept(
    spec: ExecSpec,
    tree: json::JsonView,
    s: Seq<char>,
    k: Seq<char>,
)
    requires
        spec.is_what(tree),
    ensures
        json::member(tree, "cwd"@) == Some(json::JsonView::Str(s)) ==> spec.cwd is Some
            && spec.cwd->0@ == s,
        spec.cwd is Some ==> json::member(tree, "cwd"@) == Some(json::JsonView::Str(spec.cwd->0@)),
        json::member(tree, "stdin"@) == Some(json::JsonView::Str(s)) ==> spec.stdin is Some
            && spec.stdin->0@ == s,
        spec.stdin is Some ==> json::member(tree, "stdin"@) == Some(
            json::JsonView::Str(spec.stdin->0@),
        ),
        json::member(tree, "tag"@) == Some(json::JsonView::Str(s)) ==> spec.tag is Some
            && spec.tag->0@ == s,
        spec.tag is Some ==> json::member(tree, "tag"@) == Some(json::JsonView::Str(spec.tag->0@)),
        spec.background <==> json::member(tree, "background"@) == Some(json::JsonView::Bool(true)),
        json::member(tree, "timeout"@) == Some(json::JsonView::Real(s)) ==> spec.timeout_secs is Some
            && spec.timeout_secs->0@ == s,
        json::member(tree, "timeout"@) is None ==> spec.timeout_secs is None,
        json::member(tree, "timeout"@) matches Some(json::JsonView::Int(n)) ==> n >= 0
            ==> spec.timeout_secs is Some && spec.timeout_secs->0@ == number::decimal(n as nat),
        json::member(tree, "timeout"@) matches Some(json::JsonView::Int(n)) ==> n < 0
            ==> spec.timeout_secs is Some && spec.timeout_secs->0@ == seq!['-'] + number::decimal(
            (-n) as nat,
        ),
        spec.timeout_secs is Some ==> json::member(tree, "timeout"@) is Some && (json::member(
            tree,
            "timeout"@,
        )->0 is Int || json::member(tree, "timeout"@)->0 is Real),
        (exists|m: Map<Seq<char>, json::JsonView>|
            json::member(tree, "env"@) == Some(json::JsonView::Object(m)) && (
            #[trigger] m.contains_key(k)) && !(m[k] is Str)) ==> strmap::lookup(spec.env@, k) == Some(
            Seq::<char>::empty(),
        ),
        json::member(tree, "cmd"@) == Some(spec.cmd_json.tree()),
        (exists|m: Map<Seq<char>, json::JsonView>|
            json::member(tree, "env"@) == Some(json::JsonView::Object(m)) && m.contains_pair(
                k,
                json::JsonView::Str(s),
            )) ==> strmap::lookup(spec.env@, k) == Some(s),
        strmap::lookup(spec.env@, k) is Some ==> json::member(tree, "env"@) is Some && json::member(
            tree,
            "env"@,
        )->0 is Object && json::member(tree, "env"@)->0->Object_0.contains_key(k),
        argv_of(tree) is Ok && argv_of(tree)->Ok_0.len() == spec.argv@.len(),
        forall|i: int|
            0 <= i < spec.argv@.len() ==> (#[trigger] spec.argv@[i])@ == argv_of(tree)->Ok_0[i],
{
    assert forall|i: int| 0 <= i < spec.argv@.len() implies (#[trigger] spec.argv@[i])@ == argv_of(
        tree,
    )->Ok_0[i] by {
        assert(text::strings(spec.argv@)[i] == spec.argv@[i]@);
    }
}

/// A command is shown as the client gave it: a line as that line, a list as that list.
pub proof fn law_command_is_shown_as_given(s: String, v: Vec<String>, i: int)
    ensures
        Cmd::Line(s).tree() == json::JsonView::Str(s@),
        Cmd::Argv(v).tree() is Array,
        Cmd::Argv(v).tree()->Array_0.len() == v@.len(),
        0 <= i < v@.len() ==> Cmd::Argv(v).tree()->Array_0[i] == json::JsonView::Str(v@[i]@),
{
}

/// A body is refused for its form or for its command, with the reason, and not otherwise.
pub proof fn law_refused_for_its_form_or_its_command(body: Seq<u8>)
    ensures
        json::json_parsed(body) matches Err(e) ==> exec_problem(body) == Some(
            "invalid JSON body: "@ + e,
        ),
        json::json_parsed(body) matches Ok(tree) ==> argv_of(tree) matches Err(m) ==> exec_problem(
            body,
        ) == Some(m),
        json::json_parsed(body) matches Ok(tree) ==> argv_of(tree) is Ok ==> exec_problem(body) is None,
{
}

/// Every event is one chunk of the stream that holds one line and nothing else, and the end
/// of the events adds nothing.
pub proof fn law_stream_is_a_line_per_event(e: Event)
    ensures
        stream_bytes(StreamInput::Event(e)) == response::chunk_bytes(
            vstd::utf8::encode_utf8(json::json_text(e.tree()) + seq!['\n']),
        ),
        stream_bytes(StreamInput::Silence) == response::chunk_bytes(
            vstd::utf8::encode_utf8("{\"event\":\"ping\"}\n"@),
        ),
        stream_bytes(StreamInput::Closed).len() == 0,
        MAX_EXEC_BODY == 16 * 1024 * 1024,
        PING_INTERVAL_SECS == 15,
        OUTPUT_DRAIN_MS == 2000,
{
    assert(json::json_text(e.tree()).push('\n') =~= json::json_text(e.tree()) + seq!['\n']);
}

/// A command that cannot be run is refused with the reason: the form that `shell` insists on,
/// an item that is no text, no item at all, or no command.
pub proof fn law_refused_commands_have_their_reasons(tree: json::JsonView, i: int)
    ensures
        json::member(tree, "cmd"@) matches Some(json::JsonView::Str(_)) ==> json::member_bool(
            tree,
            "shell"@,
        ) == Some(false) ==> argv_of(tree) == Err::<Seq<Seq<char>>, Seq<char>>(
            "shell=false requires 'cmd' to be an array of strings"@,
        ),
        json::member(tree, "cmd"@) matches Some(json::JsonView::Array(_)) ==> json::member_bool(
            tree,
            "shell"@,
        ) == Some(true) ==> argv_of(tree) == Err::<Seq<Seq<char>>, Seq<char>>(
            "shell=true requires 'cmd' to be a string"@,
        ),
        json::member(tree, "cmd"@) matches Some(json::JsonView::Array(items)) ==> json::member_bool(
            tree,
            "shell"@,
        ) != Some(true) && 0 <= i < items.len() && !(items[i] is Str) ==> argv_of(tree) == Err::<
            Seq<Seq<char>>,
            Seq<char>,
        >("cmd array items must be strings"@),
        json::member(tree, "cmd"@) matches Some(json::JsonView::Array(items)) ==> json::member_bool(
            tree,
            "shell"@,
        ) != Some(true) && items.len() == 0 ==> argv_of(tree) == Err::<Seq<Seq<char>>, Seq<char>>(
            "cmd array must not be empty"@,
        ),
        json::member(tree, "cmd"@) is None || !(json::member(tree, "cmd"@)->0 is Str || json::member(
            tree,
            "cmd"@,
        )->0 is Array) ==> argv_of(tree) == Err::<Seq<Seq<char>>, Seq<char>>(
            match json::member_bool(tree, "shell"@) {
                Some(true) => "shell=true requires 'cmd' to be a string"@,
                Some(false) => "shell=false requires 'cmd' to be an array of strings"@,
                None => "missing 'cmd' (string or array of strings)"@,
            },
        ),
{
}

/// The client is told nothing else of how a command ended.
pub proof fn law_exit_event_tells_nothing_else(info: ExitInfo, key: Seq<char>)
    requires
        key != "event"@,
        key != "exit_code"@,
        key != "signal"@,
        key != "timed_out"@,
        key != "duration_ms"@,
    ensures
        json::member(Event::Exit(info).tree(), key) is None,
{
    json::lemma_object_5_only(
        ("event"@, json::JsonView::Str("exit"@)),
        ("exit_code"@, number_or_null(info.exit_code)),
        ("signal"@, number_or_null(info.signal)),
        ("timed_out"@, json::JsonView::Bool(info.timed_out)),
        ("duration_ms"@, json::JsonView::Int(info.duration_ms as int)),
        key,
    );
}

} // verus!
