//! The server as a whole: its state, and what it does with a request.

use vstd::prelude::*;

use crate::auth;
use crate::auth::{
    classify_scoped_token, host_route_auth, is_host_path, route_mode_allowed, Auth, RouteAuth, Scope,
};
use crate::http;
use crate::http::Request;
use crate::json;
use crate::json::{list_doc, object_doc, text_doc, Doc};
use crate::landlock;
use crate::landlock::features;
use crate::lifecycle;
use crate::lifecycle::no_sandbox;
use crate::number;
use crate::processes;
use crate::processes::ProcRegistry;
use crate::proxy;
use crate::response;
use crate::response::{error_reply, object_reply, Reply};
use crate::routes;
use crate::routes::{read_route, Op, Route};
use crate::sandboxes;
use crate::sandboxes::{SandboxEntry, SandboxRegistry};
use crate::strmap;
use crate::text;
use crate::text::{split_str, str_eq, strip_front_str, strip_str};

verus! {

/// The version of the server.
pub const VERSION: &'static str = "0.1.0";

/// What the server knows.
pub struct State {
    pub auth: Auth,
    pub started_at_ms: i64,
    /// The last time that an admitted request came, or a command showed that it is alive.
    pub last_activity_ms: i64,
    pub procs: ProcRegistry,
    pub sandboxes: SandboxRegistry,
    /// Whether the job hosts many sandboxes, or is the sandbox itself.
    pub host_mode: bool,
    /// Whether the host token is accepted on the routes of sandboxes.
    pub compat_host_token: bool,
    /// What the kernel offers to confine sandboxes with.
    pub landlock_abi: i32,
}

/// What the server knows.
pub struct StateView {
    pub auth: Auth,
    pub started_at_ms: i64,
    pub last_activity_ms: i64,
    pub procs: processes::ProcsView,
    pub sandboxes: sandboxes::RegistryView,
    pub host_mode: bool,
    pub compat_host_token: bool,
    pub landlock_abi: i32,
}

impl View for State {
    type V = StateView;

    open spec fn view(&self) -> StateView {
        StateView {
            auth: self.auth,
            started_at_ms: self.started_at_ms,
            last_activity_ms: self.last_activity_ms,
            procs: self.procs@,
            sandboxes: self.sandboxes@,
            host_mode: self.host_mode,
            compat_host_token: self.compat_host_token,
            landlock_abi: self.landlock_abi,
        }
    }
}

// ---------------------------------------------------------------------------
// Authorization
// ---------------------------------------------------------------------------

/// What a request may address, given the token that it presents and its path. On a host
/// the routes of a sandbox take the token of that sandbox, and all others the host token.
pub open spec fn admitted(
    s: StateView,
    provided: Option<Seq<char>>,
    segments: Seq<Seq<char>>,
) -> Option<Scope> {
    let as_host = if s.auth.admits(provided) {
        Some(Scope::Host)
    } else {
        None
    };
    if !s.host_mode {
        as_host
    } else {
        match auth::route_auth_of(segments) {
            auth::RouteAuthView::Sandbox(id) => match sandboxes::entry_of(s.sandboxes.entries, id) {
                Some(e) => match provided {
                    Some(token) => auth::scope_on_sandbox(token, e.token, s.auth, s.compat_host_token),
                    None => None,
                },
                None => None,
            },
            _ => as_host,
        }
    }
}

/// Finds out what a request may address.
pub fn authorize(state: &State, provided: Option<&str>, segments: &[&str]) -> (r: Option<Scope>)
    ensures
        r == admitted(state@, auth::token_of(provided), text::texts(segments@)),
{
    if !state.host_mode {
        return if state.auth.accepts(provided) {
            Some(Scope::Host)
        } else {
            None
        };
    }
    match host_route_auth(segments) {
        RouteAuth::Sandbox(id) => match state.sandboxes.get(id) {
            Some(entry) => match provided {
                Some(token) => classify_scoped_token(
                    token,
                    entry.token.as_str(),
                    &state.auth,
                    state.compat_host_token,
                ),
                None => None,
            },
            None => None,
        },
        _ => if state.auth.accepts(provided) {
            Some(Scope::Host)
        } else {
            None
        },
    }
}

/// The token that a request presents.
pub open spec fn presented(request: http::RequestView) -> Option<Seq<char>> {
    strmap::lookup(request.headers, "x-sandbox-token"@)
}

fn token_in<'a>(request: &'a Request) -> (r: Option<&'a str>)
    ensures
        auth::token_of(r) == presented(request@),
{
    match request.headers.get("x-sandbox-token") {
        Some(t) => Some(t.as_str()),
        None => None,
    }
}

/// Whether a request presents the server's own token.
pub fn authorized(state: &State, request: &Request) -> (r: bool)
    ensures
        r == state.auth.admits(presented(request@)),
{
    state.auth.accepts(token_in(request))
}

// ---------------------------------------------------------------------------
// Health
// ---------------------------------------------------------------------------

/// What the confinement of the server is reported as.
pub open spec fn landlock_tree(abi: i32) -> json::JsonView {
    json::object(
        seq![
            ("abi"@, json::JsonView::Int(abi as int)),
            (
                "features"@,
                json::JsonView::Array(
                    Seq::new(
                        landlock::features_of(abi).len(),
                        |i: int| json::JsonView::Str(landlock::features_of(abi)[i]),
                    ),
                ),
            ),
        ],
    )
}

/// The reply to a question after the health of the server. That it lives is told to
/// everybody; everything else only to those who present its token.
pub open spec fn health_view(s: StateView, known: bool, now: i64) -> response::ReplyView {
    if !known {
        response::ok_view(seq![("status"@, json::JsonView::Str("ok"@))])
    } else {
        response::ok_view(
            seq![
                ("status"@, json::JsonView::Str("ok"@)),
                ("version"@, json::JsonView::Str(VERSION@)),
                ("uptime_ms"@, json::JsonView::Int(now.wrapping_sub(s.started_at_ms) as int)),
                ("sandboxes"@, json::JsonView::Int(s.sandboxes.entries.len() as int)),
                ("mode"@, json::JsonView::Str(mode_name(s.host_mode))),
                ("auth"@, json::JsonView::Str(auth_name(s.auth))),
                ("landlock"@, landlock_tree(s.landlock_abi)),
            ],
        )
    }
}

/// What the mode of a server is called.
pub open spec fn mode_name(host_mode: bool) -> Seq<char> {
    if host_mode {
        "host"@
    } else {
        "dedicated"@
    }
}

/// What is reported of whether a token is required.
pub open spec fn auth_name(auth: Auth) -> Seq<char> {
    match auth {
        Auth::Required(_) => "required"@,
        Auth::DisabledForDevelopment => "disabled"@,
    }
}

fn landlock_doc(abi: i32) -> (r: Doc)
    ensures
        r.tree() == landlock_tree(abi),
{
    let names = features(abi);
    let ghost fs = landlock::features_of(abi);
    let mut items: Vec<Doc> = Vec::new();
    let mut i: usize = 0;
    while i < names.len()
        invariant
            i <= names@.len(),
            fs == text::texts(names@),
            items@.len() == i,
            forall|j: int| 0 <= j < i ==> (#[trigger] items@[j]).tree() == json::JsonView::Str(fs[j]),
        decreases names@.len() - i,
    {
        items.push(text_doc(names[i]));
        i += 1;
    }
    let ghost listed = Seq::new(
        landlock::features_of(abi).len(),
        |i: int| json::JsonView::Str(landlock::features_of(abi)[i]),
    );
    assert(json::doc_trees(items@) =~= listed);
    let mut members: Vec<(&'static str, Doc)> = Vec::new();
    members.push(("abi", Doc::Int(abi as i64)));
    members.push(("features", list_doc(items)));
    assert(json::doc_members(members@) =~= seq![
        ("abi"@, json::JsonView::Int(abi as int)),
        ("features"@, json::JsonView::Array(listed)),
    ]);
    object_doc(members)
}

/// The reply to a question after the health of the server.
pub fn health(state: &State, known: bool, now: i64) -> (r: Reply)
    ensures
        r@ == health_view(state@, known, now),
{
    let mut members: Vec<(&'static str, Doc)> = Vec::new();
    members.push(("status", text_doc("ok")));
    if !known {
        assert(json::doc_members(members@) =~= seq![("status"@, json::JsonView::Str("ok"@))]);
        return object_reply(200, members);
    }
    let mode = if state.host_mode {
        "host"
    } else {
        "dedicated"
    };
    let auth = match state.auth {
        Auth::Required(_) => "required",
        Auth::DisabledForDevelopment => "disabled",
    };
    members.push(("version", text_doc(VERSION)));
    members.push(("uptime_ms", Doc::Int(now.wrapping_sub(state.started_at_ms))));
    members.push(("sandboxes", Doc::Uint(state.sandboxes.count() as u64)));
    members.push(("mode", text_doc(mode)));
    members.push(("auth", text_doc(auth)));
    members.push(("landlock", landlock_doc(state.landlock_abi)));
    assert(json::doc_members(members@) =~= seq![
        ("status"@, json::JsonView::Str("ok"@)),
        ("version"@, json::JsonView::Str(VERSION@)),
        ("uptime_ms"@, json::JsonView::Int(now.wrapping_sub(state@.started_at_ms) as int)),
        ("sandboxes"@, json::JsonView::Int(state@.sandboxes.entries.len() as int)),
        ("mode"@, json::JsonView::Str(mode_name(state@.host_mode))),
        ("auth"@, json::JsonView::Str(auth_name(state@.auth))),
        ("landlock"@, landlock_tree(state@.landlock_abi)),
    ]);
    object_reply(200, members)
}

// ---------------------------------------------------------------------------
// Requests
// ---------------------------------------------------------------------------

/// What is to be done for a request.
pub enum Action<'a> {
    /// Nothing but this reply.
    Reply(Reply),
    /// Something of one sandbox, or of the job.
    Run(Option<&'a str>, Op<'a>),
    Create,
    DeleteAll,
    DeleteSandbox(&'a str),
}

/// What is to be done for a request.
pub enum ActionView {
    Reply(response::ReplyView),
    Run(Option<Seq<char>>, routes::OpView),
    Create,
    DeleteAll,
    DeleteSandbox(Seq<char>),
}

impl<'a> View for Action<'a> {
    type V = ActionView;

    open spec fn view(&self) -> ActionView {
        match self {
            Action::Reply(reply) => ActionView::Reply(reply@),
            Action::Run(id, op) => ActionView::Run(
                match id {
                    Some(id) => Some(id@),
                    None => None,
                },
                op@,
            ),
            Action::Create => ActionView::Create,
            Action::DeleteAll => ActionView::DeleteAll,
            Action::DeleteSandbox(id) => ActionView::DeleteSandbox(id@),
        }
    }
}

/// The segments of a path between its slashes, those at its ends left out.
pub open spec fn segments_of(path: Seq<char>) -> Seq<Seq<char>> {
    text::split(text::strip(path, seq!['/']), seq!['/'])
}

/// The segments of a path.
pub fn segments<'a>(path: &'a str) -> (r: Vec<&'a str>)
    ensures
        text::texts(r@) == segments_of(path@),
        r@.len() > 0,
{
    split_str(strip_str(path, '/'), '/')
}

/// The segments of a path between its slashes, with the empty ones that slashes at its end
/// make.
pub open spec fn whole_segments_of(path: Seq<char>) -> Seq<Seq<char>> {
    text::split(text::strip_front(path, seq!['/']), seq!['/'])
}

/// The segments of a path, with the empty ones that slashes at its end make.
pub fn whole_segments<'a>(path: &'a str) -> (r: Vec<&'a str>)
    ensures
        text::texts(r@) == whole_segments_of(path@),
{
    split_str(strip_front_str(path, '/'), '/')
}

/// The reply with the token of a sandbox.
pub open spec fn token_view(e: sandboxes::EntryView) -> response::ReplyView {
    response::ok_view(
        seq![("id"@, json::JsonView::Str(e.id)), ("token"@, json::JsonView::Str(e.token))],
    )
}

/// The reply for a sandbox that is not there.
pub open spec fn missing_view(id: Seq<char>) -> response::ReplyView {
    response::error_view(404, lifecycle::no_sandbox_text(id))
}

/// What is to be done for an admitted request for a path of this mode.
pub open spec fn action_of(
    s: StateView,
    method: Seq<char>,
    path: Seq<char>,
) -> ActionView {
    match routes::route_of(method, segments_of(path), whole_segments_of(path)) {
        routes::RouteView::Unknown => ActionView::Reply(
            response::error_view(404, "no route: "@ + method + " "@ + path),
        ),
        routes::RouteView::Create => ActionView::Create,
        routes::RouteView::DeleteAll => ActionView::DeleteAll,
        routes::RouteView::DeleteSandbox(id) => ActionView::DeleteSandbox(id),
        routes::RouteView::ListSandboxes => ActionView::Reply(
            response::ReplyView {
                status: 200,
                body: json::JsonView::Array(
                    Seq::new(
                        s.sandboxes.entries.len(),
                        |i: int| sandboxes::listed(s.sandboxes.entries[i]),
                    ),
                ),
            },
        ),
        routes::RouteView::Token(id) => ActionView::Reply(
            match sandboxes::entry_of(s.sandboxes.entries, id) {
                Some(e) => token_view(e),
                None => missing_view(id),
            },
        ),
        routes::RouteView::Op(scope, op) => match op {
            routes::OpView::ProcessList => ActionView::Reply(
                response::ReplyView {
                    status: 200,
                    body: json::JsonView::Array(processes::listing(s.procs.procs, scope)),
                },
            ),
            routes::OpView::ProcessDelete(_) => ActionView::Run(scope, op),
            _ => match scope {
                Some(id) => if sandboxes::entry_of(s.sandboxes.entries, id) is Some {
                    ActionView::Run(scope, op)
                } else {
                    ActionView::Reply(missing_view(id))
                },
                None => ActionView::Run(scope, op),
            },
        },
    }
}

/// The state after an admitted request: it counts as activity, and one for a sandbox
/// starts the idle time of that sandbox again.
pub open spec fn noted(s: StateView, segments: Seq<Seq<char>>, now: i64) -> StateView {
    let t = StateView { last_activity_ms: now, ..s };
    if auth::path_in_mode(s.host_mode, segments) && auth::host_path(segments) && segments.len() > 2 {
        StateView { sandboxes: sandboxes::touched(s.sandboxes, segments[2], now), ..t }
    } else {
        t
    }
}

/// Whether a request asks after the health of the server.
pub open spec fn asks_health(request: http::RequestView) -> bool {
    request.method == "GET"@ && request.path == "/health"@
}

/// What is done for a request, and the state after it. Authentication comes first, so
/// that a caller without a token learns nothing of the routes.
pub open spec fn served(s: StateView, request: http::RequestView, now: i64) -> (
    StateView,
    ActionView,
) {
    let segments = segments_of(request.path);
    if asks_health(request) {
        (s, ActionView::Reply(health_view(s, s.auth.admits(presented(request)), now)))
    } else if admitted(s, presented(request), segments) is None {
        (s, ActionView::Reply(response::error_view(403, "invalid or missing X-Sandbox-Token"@)))
    } else if strmap::lookup(request.headers, "transfer-encoding"@) is Some {
        (
            s,
            ActionView::Reply(
                response::error_view(
                    411,
                    "chunked request bodies not supported; send Content-Length"@,
                ),
            ),
        )
    } else if !auth::path_in_mode(s.host_mode, segments) {
        (
            noted(s, segments, now),
            ActionView::Reply(
                response::error_view(
                    404,
                    "no route in this server mode: "@ + request.method + " "@ + request.path,
                ),
            ),
        )
    } else {
        let t = noted(s, segments, now);
        (t, action_of(t, request.method, request.path))
    }
}

fn no_route(prefix: &str, method: &str, path: &str) -> (r: Reply)
    ensures
        r@ == response::error_view(404, prefix@ + method@ + " "@ + path@),
{
    let mut m: String = prefix.to_owned();
    m.append(method);
    m.append(" ");
    m.append(path);
    error_reply(404, m.as_str())
}

fn token_reply(entry: &SandboxEntry) -> (r: Reply)
    ensures
        r@ == token_view(entry@),
{
    let mut members: Vec<(&'static str, Doc)> = Vec::new();
    members.push(("id", text_doc(entry.id.as_str())));
    members.push(("token", text_doc(entry.token.as_str())));
    assert(json::doc_members(members@) =~= seq![
        ("id"@, json::JsonView::Str(entry@.id)),
        ("token"@, json::JsonView::Str(entry@.token)),
    ]);
    object_reply(200, members)
}

/// Finds out what is to be done for an admitted request for a path of this mode.
fn dispatch<'a>(state: &State, method: &str, path: &'a str, segs: &[&'a str]) -> (r: Action<'a>)
    requires
        text::texts(segs@) == segments_of(path@),
    ensures
        r@ == action_of(state@, method@, path@),
{
    let whole = whole_segments(path);
    match read_route(method, segs, whole.as_slice()) {
        Route::Unknown => Action::Reply(no_route("no route: ", method, path)),
        Route::Create => Action::Create,
        Route::DeleteAll => Action::DeleteAll,
        Route::DeleteSandbox(id) => Action::DeleteSandbox(id),
        Route::ListSandboxes => Action::Reply(Reply { status: 200, body: state.sandboxes.list() }),
        Route::Token(id) => match state.sandboxes.get(id) {
            Some(entry) => Action::Reply(token_reply(entry)),
            None => Action::Reply(no_sandbox(id)),
        },
        Route::Op(scope, op) => match op {
            Op::ProcessList => Action::Reply(
                Reply { status: 200, body: state.procs.list_processes(scope) },
            ),
            Op::ProcessDelete(id) => Action::Run(scope, Op::ProcessDelete(id)),
            op => match scope {
                Some(id) => if state.sandboxes.get(id).is_some() {
                    Action::Run(scope, op)
                } else {
                    Action::Reply(no_sandbox(id))
                },
                None => Action::Run(scope, op),
            },
        },
    }
}

/// Finds out what is to be done for a request, and notes that it came.
pub fn route<'a>(state: &mut State, request: &'a Request, now: i64) -> (r: Action<'a>)
    ensures
        (final(state)@, r@) == served(old(state)@, request@, now),
        old(state).sandboxes.wf() ==> final(state).sandboxes.wf(),
{
    let method = request.method.as_str();
    let path = request.path.as_str();
    if str_eq(method, "GET") && str_eq(path, "/health") {
        let known = authorized(state, request);
        return Action::Reply(health(state, known, now));
    }
    let segs = segments(path);
    let ghost all = text::texts(segs@);
    if authorize(state, token_in(request), segs.as_slice()).is_none() {
        return Action::Reply(error_reply(403, "invalid or missing X-Sandbox-Token"));
    }
    if request.headers.contains_key("transfer-encoding") {
        return Action::Reply(
            error_reply(411, "chunked request bodies not supported; send Content-Length"),
        );
    }
    state.last_activity_ms = now;
    if !route_mode_allowed(state.host_mode, segs.as_slice()) {
        assert(state@ == noted(old(state)@, all, now));
        return Action::Reply(no_route("no route in this server mode: ", method, path));
    }
    if is_host_path(segs.as_slice()) && segs.len() > 2 {
        assert(all[2] == segs@[2]@);
        state.sandboxes.touch(segs[2], now);
    }
    assert(state@ == noted(old(state)@, all, now));
    dispatch(state, method, path, segs.as_slice())
}

/// Notes that a command showed that it is alive.
pub fn note_activity(state: &mut State, now: i64)
    ensures
        final(state)@ == (StateView { last_activity_ms: now, ..old(state)@ }),
{
    state.last_activity_ms = now;
}

/// Ends the deletion of a sandbox: its processes are forgotten, and its uid is free again
/// or quarantined.
pub fn end_delete(
    state: &mut State,
    id: &str,
    uid: u32,
    converged: bool,
    home_error: Option<&str>,
) -> (r: Result<(), String>)
    requires
        old(state).sandboxes.wf(),
        old(state).sandboxes@.deleting.contains(uid),
    ensures
        final(state).sandboxes.wf(),
        old(state)@.procs.wf() ==> final(state)@.procs.wf(),
        final(state)@ == (StateView {
            sandboxes: sandboxes::settled(
                old(state)@.sandboxes,
                uid,
                converged && home_error is None,
            ),
            procs: processes::ProcsView {
                procs: processes::others(old(state)@.procs.procs, id@),
                ..old(state)@.procs
            },
            ..old(state)@
        }),
        match r {
            Ok(_) => converged && home_error is None,
            Err(m) => if !converged {
                m@ == sandboxes::survivors_text(id@, uid)
            } else {
                home_error is Some && m@ == sandboxes::home_left_text(id@, home_error->0@)
            },
        },
{
    let outcome = state.sandboxes.finish_delete(id, uid, converged, home_error);
    state.procs.remove_for_sandbox(id);
    outcome
}

// ---------------------------------------------------------------------------
// What holds of every request
// ---------------------------------------------------------------------------

/// A caller that is not admitted gets the same reply whatever it asks for, and leaves no
/// trace. So it learns nothing of which routes or sandboxes there are.
pub proof fn law_refused_caller_learns_nothing(s: StateView, request: http::RequestView, now: i64)
    requires
        !asks_health(request),
        admitted(s, presented(request), segments_of(request.path)) is None,
    ensures
        served(s, request, now) == (
            s,
            ActionView::Reply(response::error_view(403, "invalid or missing X-Sandbox-Token"@)),
        ),
{
}

/// Nothing is done for a request that was not admitted.
pub proof fn law_only_admitted_requests_act(s: StateView, request: http::RequestView, now: i64)
    requires
        !(served(s, request, now).1 is Reply),
    ensures
        admitted(s, presented(request), segments_of(request.path)) is Some,
        auth::path_in_mode(s.host_mode, segments_of(request.path)),
{
}

/// What acts with the server's own rights is never done on a host, and what acts on a
/// sandbox or on the pool only there.
pub proof fn law_surfaces_do_not_mix(s: StateView, request: http::RequestView, now: i64)
    ensures
        match served(s, request, now).1 {
            ActionView::Reply(_) => true,
            ActionView::Run(None, _) => !s.host_mode,
            ActionView::Run(Some(_), _) => s.host_mode,
            _ => s.host_mode,
        },
{
    routes::law_routes_follow_the_surface(
        request.method,
        segments_of(request.path),
        whole_segments_of(request.path),
    );
}

/// On a host a token that is not the host's gets nothing done but for the sandbox that it
/// belongs to: whatever is done concerns a sandbox whose token it is.
pub proof fn law_sandbox_token_acts_on_its_sandbox_only(
    s: StateView,
    request: http::RequestView,
    now: i64,
)
    requires
        s.host_mode,
        !s.auth.admits(presented(request)),
    ensures
        match served(s, request, now).1 {
            ActionView::Reply(_) => true,
            ActionView::Run(Some(id), _) => sandboxes::entry_of(s.sandboxes.entries, id) matches Some(
                e,
            ) && presented(request) == Some(e.token),
            ActionView::DeleteSandbox(id) => sandboxes::entry_of(s.sandboxes.entries, id) matches Some(
                e,
            ) && presented(request) == Some(e.token),
            _ => false,
        },
{
    let segments = segments_of(request.path);
    if !(served(s, request, now).1 is Reply) {
        match auth::route_auth_of(segments) {
            auth::RouteAuthView::Sandbox(id) => {
                routes::law_scoped_routes_are_about_their_sandbox(
                    request.method,
                    segments,
                    whole_segments_of(request.path),
                    id,
                );
            },
            _ => {},
        }
    }
}

/// A token is handed out only to those who present the host token.
pub proof fn law_tokens_are_recovered_by_the_host_only(
    s: StateView,
    request: http::RequestView,
    id: Seq<char>,
)
    requires
        s.host_mode,
        routes::route_of(
            request.method,
            segments_of(request.path),
            whole_segments_of(request.path),
        ) == routes::RouteView::Token(id),
    ensures
        admitted(s, presented(request), segments_of(request.path)) is Some <==> s.auth.admits(
            presented(request),
        ),
{
    auth::law_token_recovery_is_management(segments_of(request.path));
}

/// Everybody learns that the server lives, and nothing else without its token.
pub proof fn law_health_is_open_and_its_details_are_not(
    s: StateView,
    request: http::RequestView,
    now: i64,
)
    requires
        asks_health(request),
    ensures
        served(s, request, now).0 == s,
        !s.auth.admits(presented(request)) ==> served(s, request, now).1 == ActionView::Reply(
            response::ok_view(seq![("status"@, json::JsonView::Str("ok"@))]),
        ),
{
}

/// The path that a proxy request takes to the server in a sandbox is its own path with just
/// the prefix up to the port left out: a slash at its end stays. The bare port stands for
/// the root.
pub proof fn law_proxy_request_keeps_its_path(
    method: Seq<char>,
    scope: Option<Seq<char>>,
    port: Seq<char>,
    behind: Seq<char>,
)
    requires
        scope is Some ==> !scope->0.contains('/'),
        !port.contains('/'),
        number::read_unsigned(port, 10, u16::MAX as nat) is Some,
        number::read_unsigned(port, 10, u16::MAX as nat)->0 > 0,
        behind.len() == 0 || behind[0] == '/',
    ensures
        ({
            let path = (match scope {
                Some(id) => "/v1/sandboxes/"@ + id + "/proxy/"@,
                None => "/v1/proxy/"@,
            }) + port + behind;
            match routes::route_of(method, segments_of(path), whole_segments_of(path)) {
                routes::RouteView::Op(s, routes::OpView::Proxy(rest)) => s == scope
                    && proxy::target_of(rest) == Some(
                    (
                        number::read_unsigned(port, 10, u16::MAX as nat)->0 as u16,
                        if behind.len() == 0 {
                            "/"@
                        } else {
                            behind
                        },
                    ),
                ),
                _ => false,
            }
        }),
{
    reveal_strlit("/v1/sandboxes/");
    reveal_strlit("/v1/proxy/");
    reveal_strlit("/proxy/");
    reveal_strlit("v1");
    reveal_strlit("proxy");
    reveal_strlit("sandboxes");
    reveal_strlit("token");
    reveal_strlit("/");
    let slash = seq!['/'];
    assert("/"@ =~= slash);
    let front = match scope {
        Some(id) => seq!["v1"@, "sandboxes"@, id, "proxy"@],
        None => seq!["v1"@, "proxy"@],
    };
    let path = (match scope {
        Some(id) => "/v1/sandboxes/"@ + id + "/proxy/"@,
        None => "/v1/proxy/"@,
    }) + port + behind;
    let parts = front.push(port);
    let a = text::join(parts, slash);
    assert forall|i: int| 0 <= i < parts.len() implies !(#[trigger] parts[i]).contains('/') by {}
    lemma_proxy_prefix(scope, port);
    assert(path =~= slash + a + behind);
    let t = a + behind;
    assert(a[0] == 'v');
    assert(path.skip(1) =~= t);
    assert(t[0] == 'v');
    assert(slash[0] == '/');
    assert(slash.contains(path[0]));
    assert(!slash.contains(t[0]));
    assert(text::strip_front(t, slash) == t);
    assert(text::strip_front(path, slash) == t);
    let k = text::lemma_strip_back_stops(a, behind, slash);
    let kept = behind.take(k);
    assert(text::strip(path, slash) == a + kept);
    lemma_pieces(parts, kept);
    lemma_pieces(parts, behind);
    let named = segments_of(path);
    let whole = whole_segments_of(path);
    assert(parts.len() <= named.len());
    assert forall|i: int| 0 <= i < parts.len() implies named[i] == parts[i] && whole[i]
        == parts[i] by {}
    let rest = routes::tail(whole, front.len() as int);
    assert(rest[0] == port);
    if behind.len() == 0 {
        assert(rest.len() == 1);
    } else {
        let b = behind.skip(1);
        assert(rest.skip(1) =~= text::split(b, slash));
        text::law_join_undoes_split(b, slash);
        text::lemma_split_free(b, slash, 0);
        assert(slash + b =~= behind);
    }
    match scope {
        Some(id) => {
            assert(named.skip(3)[0] == named[3]);
            assert("token"@[0] != "proxy"@[0]);
        },
        None => {
            assert("sandboxes"@[0] != "proxy"@[0]);
            assert(named.skip(1)[0] == named[1]);
        },
    }
}

proof fn lemma_pieces(parts: Seq<Seq<char>>, behind: Seq<char>)
    requires
        parts.len() > 0,
        forall|i: int| 0 <= i < parts.len() ==> !(#[trigger] parts[i]).contains('/'),
        behind.len() == 0 || behind[0] == '/',
    ensures
        text::split(text::join(parts, seq!['/']) + behind, seq!['/']) == (if behind.len() == 0 {
            parts
        } else {
            parts + text::split(behind.skip(1), seq!['/'])
        }),
{
    let a = text::join(parts, seq!['/']);
    if behind.len() == 0 {
        assert(a + behind =~= a);
        text::law_split_undoes_join(parts, '/');
    } else {
        assert(seq!['/'] + behind.skip(1) =~= behind);
        text::lemma_split_joined(parts, '/', behind.skip(1));
    }
}

proof fn lemma_proxy_prefix(scope: Option<Seq<char>>, port: Seq<char>)
    requires
        port.len() > 0,
        !port.contains('/'),
    ensures
        ({
            let front = match scope {
                Some(id) => seq!["v1"@, "sandboxes"@, id, "proxy"@],
                None => seq!["v1"@, "proxy"@],
            };
            let a = text::join(front.push(port), seq!['/']);
            &&& seq!['/'] + a == (match scope {
                Some(id) => "/v1/sandboxes/"@ + id + "/proxy/"@,
                None => "/v1/proxy/"@,
            }) + port
            &&& a.len() > 0
            &&& a[0] == 'v'
            &&& a.last() == port.last()
            &&& a.last() != '/'
        }),
{
    reveal_strlit("/v1/sandboxes/");
    reveal_strlit("/v1/proxy/");
    reveal_strlit("/proxy/");
    reveal_strlit("v1");
    reveal_strlit("proxy");
    reveal_strlit("sandboxes");
    let slash = seq!['/'];
    assert(port.contains(port.last()));
    let end = seq!["proxy"@, port];
    assert(end.skip(1) =~= seq![port]);
    assert(text::join(end.skip(1), slash) == port);
    assert(text::join(end, slash) == "proxy"@ + slash + port);
    match scope {
        Some(id) => {
            let all = seq!["v1"@, "sandboxes"@, id, "proxy"@, port];
            assert(all =~= seq!["v1"@, "sandboxes"@, id, "proxy"@].push(port));
            assert(all.skip(1) =~= seq!["sandboxes"@, id, "proxy"@, port]);
            assert(all.skip(1).skip(1) =~= seq![id, "proxy"@, port]);
            assert(all.skip(1).skip(1).skip(1) =~= end);
            assert(text::join(all.skip(1).skip(1), slash) == id + slash + text::join(end, slash));
            assert(text::join(all.skip(1), slash) == "sandboxes"@ + slash + text::join(
                all.skip(1).skip(1),
                slash,
            ));
            assert(text::join(all, slash) == "v1"@ + slash + text::join(all.skip(1), slash));
            assert(slash + text::join(all, slash) =~= "/v1/sandboxes/"@ + id + "/proxy/"@ + port);
        },
        None => {
            let all = seq!["v1"@, "proxy"@, port];
            assert(all =~= seq!["v1"@, "proxy"@].push(port));
            assert(all.skip(1) =~= end);
            assert(text::join(all, slash) == "v1"@ + slash + text::join(end, slash));
            assert(slash + text::join(all, slash) =~= "/v1/proxy/"@ + port);
        },
    }
}

// ---------------------------------------------------------------------------
// What becomes of each request
// ---------------------------------------------------------------------------

/// The state denotes what the server knows.
pub proof fn law_state_denotes_itself<'a>(s: State, id: &'a str, op: Op<'a>, reply: Reply)
    ensures
        s@.auth == s.auth,
        s@.started_at_ms == s.started_at_ms,
        s@.last_activity_ms == s.last_activity_ms,
        s@.procs == s.procs@,
        s@.sandboxes == s.sandboxes@,
        s@.host_mode == s.host_mode,
        s@.compat_host_token == s.compat_host_token,
        s@.landlock_abi == s.landlock_abi,
        Action::Reply(reply)@ == ActionView::Reply(reply@),
        Action::Run(Some(id), op)@ == ActionView::Run(Some(id@), op@),
        Action::Run(None, op)@ == ActionView::Run(None, op@),
        Action::Create@ == ActionView::Create,
        Action::DeleteAll@ == ActionView::DeleteAll,
        Action::DeleteSandbox(id)@ == ActionView::DeleteSandbox(id@),
{
}

/// The token that a request presents is the value of one header. On a dedicated server, and on
/// the management routes of a host, exactly the server's own token is admitted; on the routes
/// of a sandbox the token of that sandbox is, and the server's own while it counts there; and
/// on those of a sandbox that is not there none is.
pub proof fn law_admission(
    s: StateView,
    request: http::RequestView,
    provided: Option<Seq<char>>,
    segments: Seq<Seq<char>>,
    token: Seq<char>,
    e: sandboxes::EntryView,
)
    ensures
        presented(request) == strmap::lookup(request.headers, "x-sandbox-token"@),
        !s.host_mode ==> (admitted(s, provided, segments) is Some <==> s.auth.admits(provided)),
        s.host_mode && !(auth::route_auth_of(segments) is Sandbox) ==> (admitted(
            s,
            provided,
            segments,
        ) is Some <==> s.auth.admits(provided)),
        !s.host_mode || !(auth::route_auth_of(segments) is Sandbox) ==> admitted(
            s,
            provided,
            segments,
        ) != Some(Scope::Sandbox),
        s.host_mode && auth::route_auth_of(segments) == auth::RouteAuthView::Sandbox(e.id)
            && sandboxes::entry_of(s.sandboxes.entries, e.id) == Some(e) ==> {
            &&& admitted(s, Some(e.token), segments) == Some(Scope::Sandbox)
            &&& admitted(s, None, segments) is None
            &&& token != e.token && s.compat_host_token && s.auth.admits(Some(token)) ==> admitted(
                s,
                Some(token),
                segments,
            ) == Some(Scope::Host)
            &&& token != e.token && !(s.compat_host_token && s.auth.admits(Some(token))) ==> admitted(
                s,
                Some(token),
                segments,
            ) is None
        },
        s.host_mode && auth::route_auth_of(segments) == auth::RouteAuthView::Sandbox(e.id)
            && sandboxes::entry_of(s.sandboxes.entries, e.id) is None ==> admitted(
            s,
            provided,
            segments,
        ) is None,
{
}

/// The health of the server, to those who present its token: that it lives, its version, how
/// long it has been up, how many sandboxes live, its mode, whether a token is required, and
/// what confines the sandboxes.
pub proof fn law_health_tells_of_the_server(s: StateView, now: i64)
    ensures
        health_view(s, true, now).status == 200,
        json::member(health_view(s, true, now).body, "status"@) == Some(json::JsonView::Str("ok"@)),
        json::member(health_view(s, true, now).body, "version"@) == Some(
            json::JsonView::Str("0.1.0"@),
        ),
        json::member(health_view(s, true, now).body, "uptime_ms"@) == Some(
            json::JsonView::Int(now.wrapping_sub(s.started_at_ms) as int),
        ),
        i64::MIN <= now - s.started_at_ms <= i64::MAX ==> json::member(
            health_view(s, true, now).body,
            "uptime_ms"@,
        ) == Some(json::JsonView::Int(now - s.started_at_ms)),
        json::member(health_view(s, true, now).body, "sandboxes"@) == Some(
            json::JsonView::Int(s.sandboxes.entries.len() as int),
        ),
        json::member(health_view(s, true, now).body, "mode"@) == Some(
            json::JsonView::Str(
                if s.host_mode {
                    "host"@
                } else {
                    "dedicated"@
                },
            ),
        ),
        json::member(health_view(s, true, now).body, "auth"@) == Some(
            json::JsonView::Str(
                if s.auth is Required {
                    "required"@
                } else {
                    "disabled"@
                },
            ),
        ),
        json::member(health_view(s, true, now).body, "landlock"@) == Some(landlock_tree(s.landlock_abi)),
        health_view(s, false, now).status == 200,
        json::member(health_view(s, false, now).body, "status"@) == Some(json::JsonView::Str("ok"@)),
        json::member(health_view(s, false, now).body, "version"@) is None,
        json::member(health_view(s, false, now).body, "sandboxes"@) is None,
{
    reveal_strlit("status");
    reveal_strlit("version");
    reveal_strlit("uptime_ms");
    reveal_strlit("sandboxes");
    reveal_strlit("mode");
    reveal_strlit("auth");
    reveal_strlit("landlock");
    assert("status"@.len() == 6);
    assert("version"@.len() == 7);
    assert("uptime_ms"@.len() == 9);
    assert("sandboxes"@.len() == 9);
    assert("mode"@.len() == 4);
    assert("auth"@.len() == 4);
    assert("landlock"@.len() == 8);
    assert("uptime_ms"@[0] != "sandboxes"@[0]);
    assert("mode"@[0] != "auth"@[0]);
    json::lemma_object_7(
        ("status"@, json::JsonView::Str("ok"@)),
        ("version"@, json::JsonView::Str(VERSION@)),
        ("uptime_ms"@, json::JsonView::Int(now.wrapping_sub(s.started_at_ms) as int)),
        ("sandboxes"@, json::JsonView::Int(s.sandboxes.entries.len() as int)),
        ("mode"@, json::JsonView::Str(mode_name(s.host_mode))),
        ("auth"@, json::JsonView::Str(auth_name(s.auth))),
        ("landlock"@, landlock_tree(s.landlock_abi)),
    );
    let bare = seq![("status"@, json::JsonView::Str("ok"@))];
    json::lemma_object_1(("status"@, json::JsonView::Str("ok"@)));
    json::law_object_holds_nothing_else(bare, "version"@);
    json::law_object_holds_nothing_else(bare, "sandboxes"@);
}

/// What is reported of the confinement: the ABI, and the names of what it brings.
pub proof fn law_confinement_is_reported(abi: i32, i: int)
    ensures
        json::member(landlock_tree(abi), "abi"@) == Some(json::JsonView::Int(abi as int)),
        json::member(landlock_tree(abi), "features"@) is Some,
        json::member(landlock_tree(abi), "features"@)->0 is Array,
        json::member(landlock_tree(abi), "features"@)->0->Array_0.len() == landlock::features_of(
            abi,
        ).len(),
        0 <= i < landlock::features_of(abi).len() ==> json::member(
            landlock_tree(abi),
            "features"@,
        )->0->Array_0[i] == json::JsonView::Str(landlock::features_of(abi)[i]),
{
    reveal_strlit("abi");
    reveal_strlit("features");
    assert("abi"@.len() == 3);
    assert("features"@.len() == 8);
    let names = Seq::new(
        landlock::features_of(abi).len(),
        |i: int| json::JsonView::Str(landlock::features_of(abi)[i]),
    );
    json::lemma_object_2(
        ("abi"@, json::JsonView::Int(abi as int)),
        ("features"@, json::JsonView::Array(names)),
    );
}

/// A path is its segments: what stands between its slashes, those at its ends left out; with
/// those at its end an empty segment more.
pub proof fn law_path_is_its_segments(parts: Seq<Seq<char>>)
    requires
        parts.len() > 0,
        forall|i: int| 0 <= i < parts.len() ==> !(#[trigger] parts[i]).contains('/'),
        parts[0].len() > 0,
        parts.last().len() > 0,
    ensures
        segments_of(seq!['/'] + text::join(parts, seq!['/'])) == parts,
        segments_of(seq!['/'] + text::join(parts, seq!['/']) + seq!['/']) == parts,
        segments_of(text::join(parts, seq!['/'])) == parts,
        whole_segments_of(seq!['/'] + text::join(parts, seq!['/'])) == parts,
        whole_segments_of(seq!['/'] + text::join(parts, seq!['/']) + seq!['/']) == parts + seq![
            Seq::<char>::empty(),
        ],
{
    let slash = seq!['/'];
    let a = text::join(parts, slash);
    lemma_joined_ends(parts);
    lemma_slashes_are_stripped(a);
    text::law_split_undoes_join(parts, '/');
    lemma_trailing_piece(parts);
}

proof fn lemma_slashes_are_stripped(a: Seq<char>)
    requires
        a.len() > 0,
        a[0] != '/',
        a.last() != '/',
    ensures
        text::strip(seq!['/'] + a, seq!['/']) == a,
        text::strip(seq!['/'] + a + seq!['/'], seq!['/']) == a,
        text::strip(a, seq!['/']) == a,
        text::strip_front(seq!['/'] + a, seq!['/']) == a,
        text::strip_front(seq!['/'] + a + seq!['/'], seq!['/']) == a + seq!['/'],
{
    let slash = seq!['/'];
    let none = Seq::<char>::empty();
    assert(slash[0] == '/');
    assert(slash.contains('/'));
    assert(text::is_bare(a, slash));
    assert(text::strip(slash + a, slash) == a) by {
        text::law_strip_drops_the_ends_alone(slash, a, none, slash);
        assert(slash + a + none =~= slash + a);
    }
    assert(text::strip(slash + a + slash, slash) == a) by {
        text::law_strip_drops_the_ends_alone(slash, a, slash, slash);
    }
    assert(text::strip(a, slash) == a) by {
        text::law_strip_drops_the_ends_alone(none, a, none, slash);
        assert(none + a + none =~= a);
    }
    assert(text::strip_front(slash + a, slash) == a) by {
        text::law_strip_front_drops_the_front_alone(slash, a, slash);
    }
    assert(text::strip_front(slash + a + slash, slash) == a + slash) by {
        assert((a + slash)[0] == a[0]);
        text::law_strip_front_drops_the_front_alone(slash, a + slash, slash);
        assert(slash + (a + slash) =~= slash + a + slash);
    }
}

proof fn lemma_trailing_piece(parts: Seq<Seq<char>>)
    requires
        parts.len() > 0,
        forall|i: int| 0 <= i < parts.len() ==> !(#[trigger] parts[i]).contains('/'),
    ensures
        text::split(text::join(parts, seq!['/']) + seq!['/'], seq!['/']) == parts + seq![
            Seq::<char>::empty(),
        ],
{
    let slash = seq!['/'];
    let none = Seq::<char>::empty();
    lemma_pieces(parts, slash);
    assert(slash.skip(1) =~= none);
    text::lemma_char_free(none, '/');
    text::lemma_split_whole(none, slash);
}

proof fn lemma_joined_ends(parts: Seq<Seq<char>>)
    requires
        parts.len() > 0,
        forall|i: int| 0 <= i < parts.len() ==> !(#[trigger] parts[i]).contains('/'),
        parts[0].len() > 0,
        parts.last().len() > 0,
    ensures
        text::join(parts, seq!['/']).len() > 0,
        text::join(parts, seq!['/'])[0] != '/',
        text::join(parts, seq!['/']).last() != '/',
    decreases parts.len(),
{
    let slash = seq!['/'];
    let first = parts[0];
    let last = parts[parts.len() - 1];
    assert(!first.contains('/') && !last.contains('/'));
    assert(first.contains(first[0]));
    assert(last.contains(last[last.len() - 1]));
    if parts.len() > 1 {
        let front = parts.drop_last();
        assert(front.push(last) =~= parts);
        text::lemma_join_push(front, last, slash);
        let a = text::join(parts, slash);
        assert(a == text::join(front, slash) + slash + last);
        assert(a.last() == last[last.len() - 1]);
        assert(a == first + slash + text::join(parts.skip(1), slash));
        assert(a[0] == first[0]);
    }
}

/// The token of a sandbox is handed out with its id, and a sandbox that is not there is
/// answered with 404 and its name.
pub proof fn law_token_reply_holds_the_token(e: sandboxes::EntryView, id: Seq<char>)
    ensures
        token_view(e).status == 200,
        json::member(token_view(e).body, "id"@) == Some(json::JsonView::Str(e.id)),
        json::member(token_view(e).body, "token"@) == Some(json::JsonView::Str(e.token)),
        missing_view(id).status == 404,
        json::member(missing_view(id).body, "error"@) == Some(
            json::JsonView::Str("no such sandbox: "@ + id),
        ),
{
    reveal_strlit("id");
    reveal_strlit("token");
    assert("id"@.len() == 2);
    assert("token"@.len() == 5);
    json::lemma_object_2(
        ("id"@, json::JsonView::Str(e.id)),
        ("token"@, json::JsonView::Str(e.token)),
    );
    response::law_error_says_what_is_wrong(404, "no such sandbox: "@ + id);
}

/// What an admitted request that goes past the checks is noted with: the time, on the server
/// and on the sandbox that it addresses; nothing else changes.
pub proof fn law_request_is_noted(s: StateView, segments: Seq<Seq<char>>, now: i64)
    ensures
        noted(s, segments, now).last_activity_ms == now,
        noted(s, segments, now).auth == s.auth,
        noted(s, segments, now).started_at_ms == s.started_at_ms,
        noted(s, segments, now).procs == s.procs,
        noted(s, segments, now).host_mode == s.host_mode,
        noted(s, segments, now).compat_host_token == s.compat_host_token,
        noted(s, segments, now).landlock_abi == s.landlock_abi,
        s.host_mode && auth::host_path(segments) && segments.len() > 2 ==> noted(
            s,
            segments,
            now,
        ).sandboxes == sandboxes::touched(s.sandboxes, segments[2], now),
        !(s.host_mode && auth::host_path(segments) && segments.len() > 2) ==> noted(
            s,
            segments,
            now,
        ).sandboxes == s.sandboxes,
{
}

/// What is there is still there after a request was noted, with everything but the time.
proof fn lemma_noted_keeps(s: StateView, segments: Seq<Seq<char>>, now: i64, id: Seq<char>)
    ensures
        sandboxes::entry_of(noted(s, segments, now).sandboxes.entries, id) is Some
            <==> sandboxes::entry_of(s.sandboxes.entries, id) is Some,
        sandboxes::entry_of(s.sandboxes.entries, id) is Some ==> sandboxes::entry_of(
            noted(s, segments, now).sandboxes.entries,
            id,
        )->0.id == id && sandboxes::entry_of(
            noted(s, segments, now).sandboxes.entries,
            id,
        )->0.token == sandboxes::entry_of(s.sandboxes.entries, id)->0.token,
        noted(s, segments, now).sandboxes.entries.len() == s.sandboxes.entries.len(),
{
    let a = s.sandboxes.entries;
    let b = noted(s, segments, now).sandboxes.entries;
    if segments.len() > 2 {
        sandboxes::lemma_entry(a, segments[2], 0);
    }
    assert(b.len() == a.len());
    assert forall|i: int| 0 <= i < a.len() implies (#[trigger] a[i]).id == b[i].id && a[i].token
        == b[i].token by {}
    sandboxes::lemma_entry(a, id, 0);
    sandboxes::lemma_entry(b, id, 0);
    let p = sandboxes::entry_from(a, id, 0);
    let q = sandboxes::entry_from(b, id, 0);
    if p < a.len() {
        assert(b[p].id == id);
        if q < p {
            assert(a[q].id == b[q].id);
        }
    } else if q < b.len() {
        assert(a[q].id == b[q].id);
    }
}

/// What an admitted request for a path of the mode asks for is what is done: an operation on
/// the job, or on a sandbox that is there, is run as the path names it; the pool is acted on as
/// the path says; and what only asks is answered from the state.
pub proof fn law_admitted_request_is_carried_out(
    s: StateView,
    request: http::RequestView,
    now: i64,
    id: Seq<char>,
    op: routes::OpView,
)
    requires
        request.method != "GET"@ || request.path != "/health"@,
        admitted(s, presented(request), segments_of(request.path)) is Some,
        strmap::lookup(request.headers, "transfer-encoding"@) is None,
        auth::path_in_mode(s.host_mode, segments_of(request.path)),
    ensures
        ({
            let route = routes::route_of(
                request.method,
                segments_of(request.path),
                whole_segments_of(request.path),
            );
            let (after, done) = served(s, request, now);
            &&& after.last_activity_ms == now
            &&& after == noted(s, segments_of(request.path), now)
            &&& route == routes::RouteView::Create ==> done == ActionView::Create
            &&& route == routes::RouteView::DeleteAll ==> done == ActionView::DeleteAll
            &&& route == routes::RouteView::DeleteSandbox(id) ==> done == ActionView::DeleteSandbox(id)
            &&& route == routes::RouteView::Op(None, op) && !(op is ProcessList) ==> done
                == ActionView::Run(None, op)
            &&& route == routes::RouteView::Op(Some(id), op) && !(op is ProcessList) && (
            sandboxes::entry_of(s.sandboxes.entries, id) is Some || op is ProcessDelete) ==> done
                == ActionView::Run(Some(id), op)
            &&& route == routes::RouteView::Op(Some(id), op) && !(op is ProcessList) && !(
            op is ProcessDelete) && sandboxes::entry_of(s.sandboxes.entries, id) is None ==> done
                is Reply && done->Reply_0.status == 404
            &&& route == routes::RouteView::Op(None, routes::OpView::ProcessList) ==> done is Reply
                && done->Reply_0.status == 200 && done->Reply_0.body == json::JsonView::Array(
                processes::listing(s.procs.procs, None),
            )
            &&& route == routes::RouteView::Op(Some(id), routes::OpView::ProcessList) ==> done is Reply
                && done->Reply_0.status == 200 && done->Reply_0.body == json::JsonView::Array(
                processes::listing(s.procs.procs, Some(id)),
            )
            &&& route == routes::RouteView::ListSandboxes ==> done is Reply && done->Reply_0.status == 200
                && done->Reply_0.body is Array && done->Reply_0.body->Array_0.len()
                == s.sandboxes.entries.len()
            &&& route == routes::RouteView::Token(id) && sandboxes::entry_of(
                s.sandboxes.entries,
                id,
            ) is Some ==> done is Reply && done->Reply_0.status == 200 && json::member(
                done->Reply_0.body,
                "token"@,
            ) == Some(json::JsonView::Str(sandboxes::entry_of(s.sandboxes.entries, id)->0.token))
            &&& route == routes::RouteView::Token(id) && sandboxes::entry_of(
                s.sandboxes.entries,
                id,
            ) is None ==> done is Reply && done->Reply_0.status == 404
            &&& route == routes::RouteView::Unknown ==> done is Reply && done->Reply_0.status == 404
                && json::member(done->Reply_0.body, "error"@) == Some(
                json::JsonView::Str("no route: "@ + request.method + " "@ + request.path),
            )
        }),
{
    let segments = segments_of(request.path);
    let t = noted(s, segments, now);
    lemma_noted_keeps(s, segments, now, id);
    response::law_error_says_what_is_wrong(
        404,
        "no route: "@ + request.method + " "@ + request.path,
    );
    match sandboxes::entry_of(t.sandboxes.entries, id) {
        Some(e) => {
            law_token_reply_holds_the_token(e, id);
        },
        None => {},
    }
}

/// The list of sandboxes shows each of them as it is.
pub proof fn law_list_shows_every_sandbox(
    s: StateView,
    method: Seq<char>,
    path: Seq<char>,
    i: int,
)
    requires
        routes::route_of(method, segments_of(path), whole_segments_of(path))
            == routes::RouteView::ListSandboxes,
        0 <= i < s.sandboxes.entries.len(),
    ensures
        action_of(s, method, path) is Reply,
        action_of(s, method, path)->Reply_0.body is Array,
        action_of(s, method, path)->Reply_0.body->Array_0.len() == s.sandboxes.entries.len(),
        action_of(s, method, path)->Reply_0.body->Array_0[i] == sandboxes::listed(
            s.sandboxes.entries[i],
        ),
{
}

/// What is refused before it is looked at: a caller that is not admitted with 403, a body in
/// chunks with 411, and a path of the other mode with 404, each with its message; the first two
/// leave no trace.
pub proof fn law_refusals_come_in_order(s: StateView, request: http::RequestView, now: i64)
    requires
        request.method != "GET"@ || request.path != "/health"@,
    ensures
        ({
            let segments = segments_of(request.path);
            let (after, done) = served(s, request, now);
            &&& admitted(s, presented(request), segments) is None ==> after == s && done is Reply
                && done->Reply_0.status == 403 && json::member(done->Reply_0.body, "error"@) == Some(
                json::JsonView::Str("invalid or missing X-Sandbox-Token"@),
            )
            &&& admitted(s, presented(request), segments) is Some && strmap::lookup(
                request.headers,
                "transfer-encoding"@,
            ) is Some ==> after == s && done is Reply && done->Reply_0.status == 411 && json::member(
                done->Reply_0.body,
                "error"@,
            ) == Some(
                json::JsonView::Str("chunked request bodies not supported; send Content-Length"@),
            )
            &&& admitted(s, presented(request), segments) is Some && strmap::lookup(
                request.headers,
                "transfer-encoding"@,
            ) is None && !auth::path_in_mode(s.host_mode, segments) ==> after == noted(s, segments, now)
                && done is Reply && done->Reply_0.status == 404 && json::member(
                done->Reply_0.body,
                "error"@,
            ) == Some(
                json::JsonView::Str(
                    "no route in this server mode: "@ + request.method + " "@ + request.path,
                ),
            )
        }),
        !asks_health(request),
{
    response::law_error_says_what_is_wrong(403, "invalid or missing X-Sandbox-Token"@);
    response::law_error_says_what_is_wrong(
        411,
        "chunked request bodies not supported; send Content-Length"@,
    );
    response::law_error_says_what_is_wrong(
        404,
        "no route in this server mode: "@ + request.method + " "@ + request.path,
    );
}

/// Health is answered whatever token comes, and in full exactly to the server's own.
pub proof fn law_health_is_answered(s: StateView, request: http::RequestView, now: i64)
    requires
        request.method == "GET"@,
        request.path == "/health"@,
    ensures
        asks_health(request),
        served(s, request, now).0 == s,
        served(s, request, now).1 == ActionView::Reply(
            health_view(s, s.auth.admits(presented(request)), now),
        ),
{
}

/// The slashes at the ends of a path do not count for its segments, however many there are; for
/// the whole ones only those at its start do not.
pub proof fn law_slashes_at_the_ends_do_not_count(a: Seq<char>, path: Seq<char>, b: Seq<char>)
    requires
        forall|i: int| 0 <= i < a.len() ==> #[trigger] a[i] == '/',
        forall|i: int| 0 <= i < b.len() ==> #[trigger] b[i] == '/',
        path.len() > 0 ==> path[0] != '/' && path.last() != '/',
    ensures
        segments_of(a + path + b) == text::split(path, seq!['/']),
        path.len() > 0 ==> whole_segments_of(a + (path + b)) == text::split(path + b, seq!['/']),
        whole_segments_of(a) == text::split(Seq::empty(), seq!['/']),
{
    let slash = seq!['/'];
    let none = Seq::<char>::empty();
    assert(slash[0] == '/');
    assert(slash.contains('/'));
    assert(text::is_bare(path, slash));
    assert forall|i: int| 0 <= i < a.len() implies slash.contains(#[trigger] a[i]) by {}
    assert forall|i: int| 0 <= i < b.len() implies slash.contains(#[trigger] b[i]) by {}
    text::law_strip_drops_the_ends_alone(a, path, b, slash);
    if path.len() > 0 {
        assert((path + b)[0] == path[0]);
        text::law_strip_front_drops_the_front_alone(a, path + b, slash);
    }
    text::law_strip_front_drops_the_front_alone(a, none, slash);
    assert(a + none =~= a);
}

/// Nothing else is told of the health of the server.
pub proof fn law_health_tells_nothing_else(s: StateView, now: i64, key: Seq<char>)
    requires
        key != "status"@,
        key != "version"@,
        key != "uptime_ms"@,
        key != "sandboxes"@,
        key != "mode"@,
        key != "auth"@,
        key != "landlock"@,
    ensures
        json::member(health_view(s, true, now).body, key) is None,
{
    json::lemma_object_7_only(
        ("status"@, json::JsonView::Str("ok"@)),
        ("version"@, json::JsonView::Str(VERSION@)),
        ("uptime_ms"@, json::JsonView::Int(now.wrapping_sub(s.started_at_ms) as int)),
        ("sandboxes"@, json::JsonView::Int(s.sandboxes.entries.len() as int)),
        ("mode"@, json::JsonView::Str(mode_name(s.host_mode))),
        ("auth"@, json::JsonView::Str(auth_name(s.auth))),
        ("landlock"@, landlock_tree(s.landlock_abi)),
        key,
    );
}

/// Without the token of the server nothing but its status is told.
pub proof fn law_stranger_is_told_nothing_else(s: StateView, now: i64, key: Seq<char>)
    requires
        key != "status"@,
    ensures
        json::member(health_view(s, false, now).body, key) is None,
{
    json::lemma_object_1_only(
        ("status"@, json::JsonView::Str("ok"@)),
        key,
    );
}

} // verus!
