//! The requests that make and delete sandboxes.

use vstd::prelude::*;

use crate::isolation;
use crate::json;
use crate::json::{json_string_map, list_doc, object_doc, parse_json, text_doc, Doc, Json};
use crate::number;
use crate::number::write_decimal;
use crate::response;
use crate::response::{error_reply, object_reply, Reply};
use crate::sandboxes;
use crate::sandboxes::{
    CreateError, SandboxEntry, MAX_ENV_BYTES, MAX_MEM_MB_CEILING, MAX_PROCS_CEILING,
};
use crate::strmap;
use crate::strmap::StrMap;

verus! {

/// The longest body of a request to make sandboxes.
pub const MAX_CREATE_BODY: u64 = 1048576;

// ---------------------------------------------------------------------------
// The size of an environment
// ---------------------------------------------------------------------------

/// The bytes of a key and its value.
pub open spec fn pair_size(key: Seq<char>, value: Seq<char>) -> nat {
    vstd::utf8::encode_utf8(key).len() + vstd::utf8::encode_utf8(value).len()
}

/// The bytes of all keys and values.
pub open spec fn map_size(m: Map<Seq<char>, Seq<char>>) -> nat
    decreases m.dom().len(),
{
    if !m.dom().finite() || m.dom().len() == 0 {
        0
    } else {
        let key = m.dom().choose();
        pair_size(key, m[key]) + map_size(m.remove(key))
    }
}

/// The bytes of all keys and values of a run of entries.
pub open spec fn entries_size(s: Seq<(Seq<char>, Seq<char>)>) -> nat
    decreases s.len(),
{
    if s.len() == 0 {
        0
    } else {
        entries_size(s.drop_last()) + pair_size(s.last().0, s.last().1)
    }
}

/// The size does not depend on which key is counted first.
proof fn lemma_map_size(m: Map<Seq<char>, Seq<char>>, key: Seq<char>)
    requires
        m.dom().finite(),
        m.contains_key(key),
    ensures
        map_size(m) == pair_size(key, m[key]) + map_size(m.remove(key)),
    decreases m.dom().len(),
{
    let first = m.dom().choose();
    assert(m.dom().contains(first));
    if first != key {
        let a = m.remove(first);
        let b = m.remove(key);
        assert(a.dom() =~= m.dom().remove(first));
        assert(b.dom() =~= m.dom().remove(key));
        lemma_map_size(a, key);
        lemma_map_size(b, first);
        assert(a.remove(key) =~= b.remove(first));
    }
}

/// A map of texts as a mathematical map.
pub open spec fn as_map(s: Seq<(Seq<char>, Seq<char>)>) -> Map<Seq<char>, Seq<char>> {
    Map::new(|k: Seq<char>| strmap::lookup(s, k) is Some, |k: Seq<char>| strmap::lookup(s, k)->0)
}

proof fn lemma_entries_size(s: Seq<(Seq<char>, Seq<char>)>)
    requires
        strmap::distinct_keys(s),
    ensures
        as_map(s).dom().finite(),
        map_size(as_map(s)) == entries_size(s),
    decreases s.len(),
{
    let m = as_map(s);
    if s.len() == 0 {
        assert(m.dom() =~= Set::<Seq<char>>::empty()) by {
            assert forall|k: Seq<char>| !m.dom().contains(k) by {
                strmap::lemma_position(s, k, 0);
            }
        }
    } else {
        let front = s.drop_last();
        let (key, value) = s.last();
        assert(s[s.len() - 1] == s.last());
        assert(strmap::distinct_keys(front)) by {
            assert forall|i: int, j: int| 0 <= i < j < front.len() implies (#[trigger] front[i]).0 != (
            #[trigger] front[j]).0 by {
                assert(s[i].0 != s[j].0);
            }
        }
        lemma_entries_size(front);
        assert forall|k: Seq<char>| k != key implies #[trigger] strmap::lookup(s, k)
            == strmap::lookup(front, k) by {
            lemma_lookup_front(s, k);
        }
        assert(strmap::lookup(front, key) is None) by {
            strmap::lemma_position(front, key, 0);
            let p = strmap::position_from(front, key, 0);
            if p < front.len() {
                assert(s[p].0 != s[s.len() - 1].0);
            }
        }
        assert(strmap::lookup(s, key) == Some(value)) by {
            strmap::lemma_position(s, key, 0);
            let p = strmap::position_from(s, key, 0);
            if p < s.len() - 1 {
                assert(s[p].0 != s[s.len() - 1].0);
            }
        }
        assert(m.remove(key) =~= as_map(front));
        assert(m.dom() =~= as_map(front).dom().insert(key));
        lemma_map_size(m, key);
    }
}

proof fn lemma_lookup_front(s: Seq<(Seq<char>, Seq<char>)>, k: Seq<char>)
    requires
        s.len() > 0,
        s.last().0 != k,
    ensures
        strmap::lookup(s, k) == strmap::lookup(s.drop_last(), k),
{
    let front = s.drop_last();
    strmap::lemma_position(s, k, 0);
    strmap::lemma_position(front, k, 0);
    let p = strmap::position_from(s, k, 0);
    let q = strmap::position_from(front, k, 0);
    assert(s[s.len() - 1] == s.last());
    if p < s.len() {
        assert(p < front.len());
        assert(front[p] == s[p]);
        if q < p {
            assert(front[q] == s[q]);
        }
    } else if q < front.len() {
        assert(front[q] == s[q]);
    }
}

/// A number no larger than `u64` holds.
pub open spec fn capped(n: nat) -> u64 {
    if n > u64::MAX {
        u64::MAX
    } else {
        n as u64
    }
}

/// Counts the bytes of an environment.
fn env_size(env: &StrMap) -> (r: u64)
    ensures
        r == capped(entries_size(env@)),
{
    let ghost all = env@;
    let mut total: u64 = 0;
    let mut i: usize = 0;
    assert(all.take(0) =~= Seq::<(Seq<char>, Seq<char>)>::empty());
    while i < env.entries.len()
        invariant
            i <= env.entries@.len(),
            all == env@,
            total == capped(entries_size(all.take(i as int))),
        decreases env.entries@.len() - i,
    {
        proof {
            assert(all.take(i + 1).drop_last() =~= all.take(i as int));
            assert(all.take(i + 1).last() == all[i as int]);
        }
        let key: usize = env.entries[i].0.as_str().as_bytes().len();
        let value: usize = env.entries[i].1.as_str().as_bytes().len();
        total = total.saturating_add(key as u64).saturating_add(value as u64);
        i += 1;
    }
    assert(all.take(all.len() as int) =~= all);
    total
}

// ---------------------------------------------------------------------------
// Making sandboxes
// ---------------------------------------------------------------------------

/// The environment that a request asks for.
pub open spec fn env_in(tree: json::JsonView) -> Map<Seq<char>, Seq<char>> {
    Map::new(
        |k: Seq<char>| json::text_in(tree, "env"@, k) is Some,
        |k: Seq<char>| json::text_in(tree, "env"@, k)->0,
    )
}

/// Whether a limit that is asked for is out of its bounds.
pub open spec fn out_of_bounds(asked: Option<u64>, ceiling: u64) -> bool {
    asked matches Some(n) && (n == 0 || n > ceiling)
}

/// Why a request to make sandboxes is refused.
pub open spec fn create_problem(tree: json::JsonView) -> Option<Seq<char>> {
    if map_size(env_in(tree)) > MAX_ENV_BYTES {
        Some(
            "env too large ("@ + number::decimal(capped(map_size(env_in(tree))) as nat)
                + " bytes, max "@ + number::decimal(MAX_ENV_BYTES as nat) + ")"@,
        )
    } else if out_of_bounds(json::member_u64(tree, "max_procs"@), MAX_PROCS_CEILING) {
        Some("max_procs must be 1..="@ + number::decimal(MAX_PROCS_CEILING as nat))
    } else if out_of_bounds(json::member_u64(tree, "max_mem_mb"@), MAX_MEM_MB_CEILING) {
        Some("max_mem_mb must be 1..="@ + number::decimal(MAX_MEM_MB_CEILING as nat))
    } else {
        None
    }
}

/// How many sandboxes a request asks for: at least one.
pub open spec fn count_in(tree: json::JsonView) -> u64 {
    match json::member_u64(tree, "count"@) {
        Some(n) => if n == 0 {
            1
        } else {
            n
        },
        None => 1,
    }
}

/// How long a sandbox may be idle, in milliseconds.
pub open spec fn idle_in(tree: json::JsonView) -> i64 {
    match json::member_i64(tree, "idle_timeout_secs"@) {
        Some(n) => n.wrapping_mul(1000),
        None => 0,
    }
}

/// What a request to make sandboxes asks for.
pub struct CreateRequest {
    pub env: StrMap,
    /// How many sandboxes were asked for.
    pub requested: u64,
    /// How many of them the host has room for.
    pub count: usize,
    pub max_procs: Option<u64>,
    pub max_mem_mb: Option<u64>,
    pub idle_timeout_ms: i64,
}

impl CreateRequest {
    /// Whether this is what a document asks for, on a host with room for `room` more.
    pub open spec fn is_what(self, tree: json::JsonView, room: usize) -> bool {
        &&& strmap::distinct_keys(self.env@)
        &&& as_map(self.env@) == env_in(tree)
        &&& self.requested == count_in(tree)
        &&& self.count == (if count_in(tree) < room {
            count_in(tree) as int
        } else {
            room as int
        })
        &&& self.max_procs == json::member_u64(tree, "max_procs"@)
        &&& self.max_mem_mb == json::member_u64(tree, "max_mem_mb"@)
        &&& self.idle_timeout_ms == idle_in(tree)
    }
}

fn limit_error(what: &str, ceiling: u64) -> (r: Reply)
    ensures
        r@ == response::error_view(400, what@ + number::decimal(ceiling as nat)),
{
    let mut m: String = what.to_owned();
    m.append(write_decimal(ceiling).as_str());
    error_reply(400, m.as_str())
}

fn beyond(asked: Option<u64>, ceiling: u64) -> (r: bool)
    ensures
        r == out_of_bounds(asked, ceiling),
{
    match asked {
        Some(n) => n == 0 || n > ceiling,
        None => false,
    }
}

/// Reads what a request to make sandboxes asks for. Asking for more sandboxes than there
/// is room for is no error: the client makes the others elsewhere.
pub fn create_request(json: &Json, room: usize) -> (r: Result<CreateRequest, Reply>)
    ensures
        match r {
            Ok(request) => create_problem(json.tree()) is None && request.is_what(json.tree(), room),
            Err(reply) => create_problem(json.tree()) is Some && reply@ == response::error_view(
                400,
                create_problem(json.tree())->0,
            ),
        },
{
    let env = json_string_map(json, "env");
    proof {
        lemma_entries_size(env@);
        assert(as_map(env@) =~= env_in(json.tree()));
    }
    let size: u64 = env_size(&env);
    if size > MAX_ENV_BYTES {
        let mut m: String = "env too large (".to_owned();
        m.append(write_decimal(size).as_str());
        m.append(" bytes, max ");
        m.append(write_decimal(MAX_ENV_BYTES).as_str());
        m.append(")");
        return Err(error_reply(400, m.as_str()));
    }
    let requested: u64 = match json.u64_at("count") {
        Some(n) => if n == 0 {
            1
        } else {
            n
        },
        None => 1,
    };
    let count: usize = if requested < room as u64 {
        requested as usize
    } else {
        room
    };
    let max_procs = json.u64_at("max_procs");
    if beyond(max_procs, MAX_PROCS_CEILING) {
        return Err(limit_error("max_procs must be 1..=", MAX_PROCS_CEILING));
    }
    let max_mem_mb = json.u64_at("max_mem_mb");
    if beyond(max_mem_mb, MAX_MEM_MB_CEILING) {
        return Err(limit_error("max_mem_mb must be 1..=", MAX_MEM_MB_CEILING));
    }
    let idle_timeout_ms: i64 = match json.i64_at("idle_timeout_secs") {
        Some(n) => n.wrapping_mul(1000),
        None => 0,
    };
    Ok(CreateRequest { env, requested, count, max_procs, max_mem_mb, idle_timeout_ms })
}

/// The document that the body of a request to make sandboxes stands for. A body that is
/// empty or cannot be read asks for nothing in particular.
pub open spec fn create_document(body: Seq<u8>) -> json::JsonView {
    if body.len() == 0 {
        json::object(Seq::empty())
    } else {
        match json::json_parsed(body) {
            Ok(tree) => tree,
            Err(_) => json::object(Seq::empty()),
        }
    }
}

/// Reads the body of a request to make sandboxes.
pub fn handle_create(body: &[u8], room: usize) -> (r: Result<CreateRequest, Reply>)
    ensures
        match r {
            Ok(request) => create_problem(create_document(body@)) is None && request.is_what(
                create_document(body@),
                room,
            ),
            Err(reply) => create_problem(create_document(body@)) is Some && reply@
                == response::error_view(400, create_problem(create_document(body@))->0),
        },
{
    let none: Vec<(String, Json)> = Vec::new();
    let nothing = Json::Object(none);
    assert(nothing.tree() == json::object(Seq::empty())) by {
        assert(json::json_map(none@) =~= Map::<Seq<char>, json::JsonView>::empty());
        assert(json::folded(Seq::empty()) =~= Map::<Seq<char>, json::JsonView>::empty());
    }
    let json = if body.len() == 0 {
        nothing
    } else {
        match parse_json(body) {
            Ok(json) => json,
            Err(_) => nothing,
        }
    };
    create_request(&json, room)
}

/// What a client is told of a sandbox that was made for it.
pub open spec fn handed_over(e: sandboxes::EntryView) -> json::JsonView {
    json::object(
        seq![
            ("id"@, json::JsonView::Str(e.id)),
            ("token"@, json::JsonView::Str(e.token)),
            ("uid"@, json::JsonView::Int(e.uid as int)),
            ("home"@, json::JsonView::Str(e.home)),
            ("confinement"@, json::JsonView::Str(e.confinement.name())),
        ],
    )
}

/// The reply when a sandbox could not be made.
fn create_failed(error: &str) -> (r: Reply)
    ensures
        r@ == response::error_view(500, "failed to create sandbox: "@ + error@),
{
    let mut m: String = "failed to create sandbox: ".to_owned();
    m.append(error);
    error_reply(500, m.as_str())
}

/// A request to make sandboxes that is being carried out.
pub struct Creation {
    pub request: CreateRequest,
    /// What the client will be told of each sandbox that was made.
    pub created: Vec<Doc>,
}

impl Creation {
    /// No more are made than were asked for.
    pub open spec fn wf(&self) -> bool {
        self.created@.len() <= self.request.count <= self.request.requested
    }

    /// The reply when no more are made: what was made, and how many of those that were
    /// asked for were not.
    pub open spec fn done(&self) -> response::ReplyView {
        response::ok_view(
            seq![
                ("sandboxes"@, json::JsonView::Array(json::doc_trees(self.created@))),
                ("rejected"@, json::JsonView::Int(self.request.requested - self.created@.len())),
            ],
        )
    }

    /// A request of which nothing has been carried out.
    pub fn new(request: CreateRequest) -> (r: Creation)
        requires
            request.count <= request.requested,
        ensures
            r.wf(),
            r.request == request,
            r.created@ == Seq::<Doc>::empty(),
    {
        Creation { request, created: Vec::new() }
    }

    /// Whether another sandbox is to be made.
    pub fn wants_more(&self) -> (r: bool)
        ensures
            r == (self.created@.len() < self.request.count),
    {
        self.created.len() < self.request.count
    }

    /// Notes that a sandbox was made.
    pub fn placed(&mut self, entry: &SandboxEntry)
        requires
            old(self).wf(),
            old(self).created@.len() < old(self).request.count,
        ensures
            final(self).wf(),
            final(self).request == old(self).request,
            json::doc_trees(final(self).created@) == json::doc_trees(old(self).created@).push(
                handed_over(entry@),
            ),
    {
        let mut members: Vec<(&'static str, Doc)> = Vec::new();
        members.push(("id", text_doc(entry.id.as_str())));
        members.push(("token", text_doc(entry.token.as_str())));
        members.push(("uid", Doc::Uint(entry.uid as u64)));
        members.push(("home", text_doc(entry.home.as_str())));
        members.push(("confinement", text_doc(entry.confinement.label())));
        assert(json::doc_members(members@) =~= seq![
            ("id"@, json::JsonView::Str(entry@.id)),
            ("token"@, json::JsonView::Str(entry@.token)),
            ("uid"@, json::JsonView::Int(entry@.uid as int)),
            ("home"@, json::JsonView::Str(entry@.home)),
            ("confinement"@, json::JsonView::Str(entry@.confinement.name())),
        ]);
        let ghost before = self.created@;
        let doc = object_doc(members);
        self.created.push(doc);
        assert(json::doc_trees(self.created@) =~= json::doc_trees(before).push(handed_over(entry@)));
    }

    /// The reply when no more are made: what was made, and how many of those that were
    /// asked for were not.
    pub fn reply(self) -> (r: Reply)
        requires
            self.wf(),
        ensures
            r@ == self.done(),
    {
        let rejected: u64 = self.request.requested - self.created.len() as u64;
        let ghost trees = json::doc_trees(self.created@);
        let mut members: Vec<(&'static str, Doc)> = Vec::new();
        members.push(("sandboxes", list_doc(self.created)));
        members.push(("rejected", Doc::Uint(rejected)));
        assert(json::doc_members(members@) =~= seq![
            ("sandboxes"@, json::JsonView::Array(trees)),
            ("rejected"@, json::JsonView::Int(rejected as int)),
        ]);
        object_reply(200, members)
    }

    /// The reply when the next one could not be made. That the host is full is no error:
    /// the client makes the rest elsewhere.
    pub fn refused(self, error: CreateError) -> (r: Reply)
        requires
            self.wf(),
        ensures
            r@ == (match error {
                CreateError::Full => self.done(),
                CreateError::Io(e) => response::error_view(500, "failed to create sandbox: "@ + e@),
            }),
    {
        match error {
            CreateError::Full => self.reply(),
            CreateError::Io(e) => create_failed(e.as_str()),
        }
    }
}

// ---------------------------------------------------------------------------
// Deleting sandboxes
// ---------------------------------------------------------------------------

/// The message for a sandbox that is not there.
pub open spec fn no_sandbox_text(id: Seq<char>) -> Seq<char> {
    "no such sandbox: "@ + id
}

/// The reply for a sandbox that is not there.
pub fn no_sandbox(id: &str) -> (r: Reply)
    ensures
        r@ == response::error_view(404, no_sandbox_text(id@)),
{
    let mut m: String = "no such sandbox: ".to_owned();
    m.append(id);
    error_reply(404, m.as_str())
}

/// The reply to the deletion of a sandbox, given what came of it. One that was deleted
/// with something left over is not reported as a success.
pub fn handle_delete(id: &str, outcome: Option<Result<(), String>>) -> (r: Reply)
    ensures
        r@ == (match outcome {
            None => response::error_view(404, no_sandbox_text(id@)),
            Some(Ok(_)) => response::ok_view(
                seq![("id"@, json::JsonView::Str(id@)), ("deleted"@, json::JsonView::Bool(true))],
            ),
            Some(Err(m)) => response::ReplyView {
                status: 500,
                body: json::object(
                    seq![
                        ("id"@, json::JsonView::Str(id@)),
                        ("deleted"@, json::JsonView::Bool(true)),
                        ("error"@, json::JsonView::Str(m@)),
                    ],
                ),
            },
        }),
{
    match outcome {
        None => no_sandbox(id),
        Some(result) => {
            let mut members: Vec<(&'static str, Doc)> = Vec::new();
            members.push(("id", text_doc(id)));
            members.push(("deleted", Doc::Bool(true)));
            match result {
                Ok(_) => {
                    assert(json::doc_members(members@) =~= seq![
                        ("id"@, json::JsonView::Str(id@)),
                        ("deleted"@, json::JsonView::Bool(true)),
                    ]);
                    object_reply(200, members)
                },
                Err(m) => {
                    members.push(("error", text_doc(m.as_str())));
                    assert(json::doc_members(members@) =~= seq![
                        ("id"@, json::JsonView::Str(id@)),
                        ("deleted"@, json::JsonView::Bool(true)),
                        ("error"@, json::JsonView::Str(m@)),
                    ]);
                    object_reply(500, members)
                },
            }
        },
    }
}

/// The reply to the deletion of `n` sandboxes, given the messages of those that left
/// something over.
pub fn handle_delete_all(n: usize, errors: &Vec<String>) -> (r: Reply)
    ensures
        r@ == (if errors@.len() == 0 {
            response::ok_view(seq![("deleted"@, json::JsonView::Int(n as int))])
        } else {
            response::ReplyView {
                status: 500,
                body: json::object(
                    seq![
                        ("deleted"@, json::JsonView::Int(n as int)),
                        (
                            "errors"@,
                            json::JsonView::Array(
                                Seq::new(
                                    errors@.len(),
                                    |i: int| json::JsonView::Str(errors@[i]@),
                                ),
                            ),
                        ),
                    ],
                ),
            }
        }),
{
    let mut members: Vec<(&'static str, Doc)> = Vec::new();
    members.push(("deleted", Doc::Uint(n as u64)));
    if errors.len() == 0 {
        assert(json::doc_members(members@) =~= seq![("deleted"@, json::JsonView::Int(n as int))]);
        object_reply(200, members)
    } else {
        let mut items: Vec<Doc> = Vec::new();
        let mut i: usize = 0;
        while i < errors.len()
            invariant
                i <= errors@.len(),
                items@.len() == i,
                forall|j: int|
                    0 <= j < i ==> (#[trigger] items@[j]).tree() == json::JsonView::Str(errors@[j]@),
            decreases errors@.len() - i,
        {
            items.push(text_doc(errors[i].as_str()));
            i += 1;
        }
        assert(json::doc_trees(items@) =~= Seq::new(
            errors@.len(),
            |i: int| json::JsonView::Str(errors@[i]@),
        ));
        members.push(("errors", list_doc(items)));
        assert(json::doc_members(members@) =~= seq![
            ("deleted"@, json::JsonView::Int(n as int)),
            (
                "errors"@,
                json::JsonView::Array(
                    Seq::new(errors@.len(), |i: int| json::JsonView::Str(errors@[i]@)),
                ),
            ),
        ]);
        object_reply(500, members)
    }
}

// ---------------------------------------------------------------------------
// What becomes of a request
// ---------------------------------------------------------------------------

/// The environment that a request gives is the one that is kept: under every key the text
/// that the request gives for it, and no other key.
pub proof fn law_requested_environment_is_kept(
    request: CreateRequest,
    tree: json::JsonView,
    room: usize,
    m: Map<Seq<char>, json::JsonView>,
    key: Seq<char>,
    value: Seq<char>,
)
    requires
        request.is_what(tree, room),
    ensures
        json::member(tree, "env"@) == Some(json::JsonView::Object(m)) && m.contains_pair(
            key,
            json::JsonView::Str(value),
        ) ==> strmap::lookup(request.env@, key) == Some(value),
        json::member(tree, "env"@) == Some(json::JsonView::Object(m)) && !m.contains_key(key)
            ==> strmap::lookup(request.env@, key) is None,
        json::member(tree, "env"@) == Some(json::JsonView::Object(m)) && m.contains_key(key) && !(
        m[key] is Str) ==> strmap::lookup(request.env@, key) == Some(Seq::<char>::empty()),
        json::member(tree, "env"@) is None || !(json::member(tree, "env"@)->0 is Object)
            ==> strmap::lookup(request.env@, key) is None,
        strmap::distinct_keys(request.env@),
{
    let asked = env_in(tree);
    assert(as_map(request.env@) == asked);
    if json::text_in(tree, "env"@, key) is Some {
        assert(asked.contains_key(key));
        assert(as_map(request.env@).contains_key(key));
        assert(as_map(request.env@)[key] == asked[key]);
    } else {
        assert(!asked.contains_key(key));
        assert(!as_map(request.env@).contains_key(key));
    }
}

/// From the request to the command: whatever key and text the environment of a request gives,
/// a sandbox that is entered with the environment of that request has, and so has every
/// command that is run in it without one of its own.
pub proof fn law_requested_environment_reaches_the_commands(
    request: CreateRequest,
    tree: json::JsonView,
    room: usize,
    m: Map<Seq<char>, json::JsonView>,
    key: Seq<char>,
    value: Seq<char>,
    r: sandboxes::RegistryView,
    uid: u32,
    id: Seq<char>,
    token: Seq<char>,
    confinement: sandboxes::Confinement,
    now: i64,
)
    requires
        request.is_what(tree, room),
        json::member(tree, "env"@) == Some(json::JsonView::Object(m)),
        m.contains_pair(key, json::JsonView::Str(value)),
    ensures
        ({
            let made = sandboxes::new_entry(
                uid,
                id,
                token,
                request.env@,
                request.max_procs,
                request.max_mem_mb,
                request.idle_timeout_ms,
                confinement,
                now,
            );
            let found = sandboxes::entry_of(sandboxes::entered(r, made).entries, id);
            &&& found is Some
            &&& strmap::lookup(found->0.env, key) == Some(value)
            &&& isolation::ends_up(isolation::env_of(found->0), key, value)
        }),
{
    law_requested_environment_is_kept(request, tree, room, m, key, value);
    let made = sandboxes::new_entry(
        uid,
        id,
        token,
        request.env@,
        request.max_procs,
        request.max_mem_mb,
        request.idle_timeout_ms,
        confinement,
        now,
    );
    sandboxes::law_new_sandbox_keeps_what_was_asked(
        r,
        uid,
        id,
        token,
        request.env@,
        request.max_procs,
        request.max_mem_mb,
        request.idle_timeout_ms,
        confinement,
        now,
    );
    let found = sandboxes::entry_of(sandboxes::entered(r, made).entries, id)->0;
    let none = Seq::<(Seq<char>, Seq<char>)>::empty();
    isolation::law_environment_reaches_the_commands(found, none, key, value);
}

/// The size of an environment is the bytes of its keys and values: none for an empty one, and
/// those of one more entry when one is added.
pub proof fn law_environment_size_counts_bytes(
    m: Map<Seq<char>, Seq<char>>,
    key: Seq<char>,
    value: Seq<char>,
)
    requires
        m.dom().finite(),
        !m.contains_key(key),
    ensures
        map_size(Map::empty()) == 0,
        map_size(m.insert(key, value)) == map_size(m) + vstd::utf8::encode_utf8(key).len()
            + vstd::utf8::encode_utf8(value).len(),
{
    let more = m.insert(key, value);
    assert(more.dom() =~= m.dom().insert(key));
    lemma_map_size(more, key);
    assert(more.remove(key) =~= m);
}

/// A request is refused exactly when its environment has more than 64 KiB or it asks for a
/// limit that is zero or too high, and it is told which.
pub proof fn law_requests_within_bounds_are_accepted(tree: json::JsonView)
    ensures
        create_problem(tree) is None <==> {
            &&& map_size(env_in(tree)) <= 64 * 1024
            &&& (json::member_u64(tree, "max_procs"@) matches Some(n) ==> 1 <= n <= 4096)
            &&& (json::member_u64(tree, "max_mem_mb"@) matches Some(n) ==> 1 <= n <= 1024 * 1024)
        },
        map_size(env_in(tree)) > 64 * 1024 && map_size(env_in(tree)) <= u64::MAX ==> create_problem(
            tree,
        ) == Some(
            "env too large ("@ + number::decimal(map_size(env_in(tree))) + " bytes, max "@
                + number::decimal(65536) + ")"@,
        ),
        map_size(env_in(tree)) <= 64 * 1024 && (json::member_u64(tree, "max_procs"@) matches Some(n)
            && (n == 0 || n > 4096)) ==> create_problem(tree) == Some(
            "max_procs must be 1..="@ + number::decimal(4096),
        ),
        map_size(env_in(tree)) <= 64 * 1024 && !(json::member_u64(tree, "max_procs"@) matches Some(n)
            && (n == 0 || n > 4096)) && (json::member_u64(tree, "max_mem_mb"@) matches Some(n) && (n
            == 0 || n > 1024 * 1024)) ==> create_problem(tree) == Some(
            "max_mem_mb must be 1..="@ + number::decimal(1048576),
        ),
        MAX_CREATE_BODY == 1024 * 1024,
{
}

/// What a request asks for is read under its keys: how many sandboxes, at least one and one
/// when it is not said, of which no more are made than there is room for; their limits; and
/// how long they may be idle, in seconds, without end when it is not said.
pub proof fn law_requested_numbers_are_kept(
    request: CreateRequest,
    tree: json::JsonView,
    room: usize,
)
    requires
        request.is_what(tree, room),
    ensures
        json::member(tree, "count"@) matches Some(json::JsonView::Int(n)) ==> 1 <= n
            <= 18446744073709551615 ==> request.requested == n,
        json::member(tree, "count"@) matches Some(json::JsonView::Int(n)) ==> n == 0
            ==> request.requested == 1,
        !(json::member(tree, "count"@) matches Some(json::JsonView::Int(n)) && 1 <= n
            <= 18446744073709551615) ==> request.requested == 1,
        request.requested >= 1,
        request.count <= request.requested,
        request.count <= room,
        request.count == request.requested || request.count == room,
        json::member(tree, "max_procs"@) matches Some(json::JsonView::Int(n)) ==> 0 <= n
            <= 18446744073709551615 ==> request.max_procs == Some(n as u64),
        !(json::member(tree, "max_procs"@) matches Some(json::JsonView::Int(n)) && 0 <= n
            <= 18446744073709551615) ==> request.max_procs is None,
        json::member(tree, "max_mem_mb"@) matches Some(json::JsonView::Int(n)) ==> 0 <= n
            <= 18446744073709551615 ==> request.max_mem_mb == Some(n as u64),
        !(json::member(tree, "max_mem_mb"@) matches Some(json::JsonView::Int(n)) && 0 <= n
            <= 18446744073709551615) ==> request.max_mem_mb is None,
        json::member(tree, "idle_timeout_secs"@) matches Some(json::JsonView::Int(n))
            ==> -9223372036854775 <= n <= 9223372036854775 ==> request.idle_timeout_ms == n * 1000,
        json::member(tree, "idle_timeout_secs"@) matches Some(json::JsonView::Int(n)) ==> i64::MIN <= n
            <= i64::MAX ==> request.idle_timeout_ms == (n as i64).wrapping_mul(1000),
        json::member(tree, "idle_timeout_secs"@) is None || !(json::member(
            tree,
            "idle_timeout_secs"@,
        )->0 is Int) ==> request.idle_timeout_ms == 0,
        json::member(tree, "idle_timeout_secs"@) matches Some(json::JsonView::Int(n)) ==> !(i64::MIN <= n
            <= i64::MAX) ==> request.idle_timeout_ms == 0,
{
}

/// A body that is empty or no document asks for what an empty object asks for, and every
/// other body for what it says.
pub proof fn law_unreadable_body_asks_for_nothing(body: Seq<u8>, key: Seq<char>)
    ensures
        body.len() > 0 && json::json_parsed(body) is Ok ==> create_document(body)
            == json::json_parsed(body)->Ok_0,
        body.len() == 0 || json::json_parsed(body) is Err ==> create_document(body) is Object
            && json::member(create_document(body), key) is None,
{
    json::law_object_holds_nothing_else(Seq::empty(), key);
}

/// A client is told of a sandbox what it needs to use it: its id, its token, its uid, its home
/// and the name of its confinement.
pub proof fn law_client_is_told_of_its_sandbox(e: sandboxes::EntryView)
    ensures
        json::member(handed_over(e), "id"@) == Some(json::JsonView::Str(e.id)),
        json::member(handed_over(e), "token"@) == Some(json::JsonView::Str(e.token)),
        json::member(handed_over(e), "uid"@) == Some(json::JsonView::Int(e.uid as int)),
        json::member(handed_over(e), "home"@) == Some(json::JsonView::Str(e.home)),
        e.confinement is Landlock ==> json::member(handed_over(e), "confinement"@) == Some(
            json::JsonView::Str("landlock"@),
        ),
        e.confinement is UidOnly ==> json::member(handed_over(e), "confinement"@) == Some(
            json::JsonView::Str("uid-only"@),
        ),
{
    reveal_strlit("id");
    reveal_strlit("token");
    reveal_strlit("uid");
    reveal_strlit("home");
    reveal_strlit("confinement");
    assert("id"@.len() == 2);
    assert("token"@.len() == 5);
    assert("uid"@.len() == 3);
    assert("home"@.len() == 4);
    assert("confinement"@.len() == 11);
    json::lemma_object_5(
        ("id"@, json::JsonView::Str(e.id)),
        ("token"@, json::JsonView::Str(e.token)),
        ("uid"@, json::JsonView::Int(e.uid as int)),
        ("home"@, json::JsonView::Str(e.home)),
        ("confinement"@, json::JsonView::Str(e.confinement.name())),
    );
}

/// The reply to a request lists what was made, in its order, and how many were not: the two
/// add up to what was asked for.
pub proof fn law_made_and_rejected_add_up(c: Creation, i: int)
    ensures
        c.done().status == 200,
        json::member(c.done().body, "rejected"@) == Some(
            json::JsonView::Int(c.request.requested - c.created@.len()),
        ),
        json::member(c.done().body, "sandboxes"@) is Some,
        json::member(c.done().body, "sandboxes"@)->0 is Array,
        json::member(c.done().body, "sandboxes"@)->0->Array_0.len() == c.created@.len(),
        0 <= i < c.created@.len() ==> json::member(c.done().body, "sandboxes"@)->0->Array_0[i]
            == c.created@[i].tree(),
        c.wf() ==> c.created@.len() <= c.request.count <= c.request.requested,
{
    reveal_strlit("rejected");
    reveal_strlit("sandboxes");
    assert("rejected"@.len() == 8);
    assert("sandboxes"@.len() == 9);
    json::lemma_object_2(
        ("sandboxes"@, json::JsonView::Array(json::doc_trees(c.created@))),
        ("rejected"@, json::JsonView::Int(c.request.requested - c.created@.len())),
    );
}

/// A sandbox that is not there is named in the reply.
pub proof fn law_missing_sandbox_is_named(id: Seq<char>)
    ensures
        no_sandbox_text(id) == "no such sandbox: "@ + id,
{
}

/// The client is told nothing else of the sandbox that was made for it.
pub proof fn law_client_is_told_nothing_else(e: sandboxes::EntryView, key: Seq<char>)
    requires
        key != "id"@,
        key != "token"@,
        key != "uid"@,
        key != "home"@,
        key != "confinement"@,
    ensures
        json::member(handed_over(e), key) is None,
{
    json::lemma_object_5_only(
        ("id"@, json::JsonView::Str(e.id)),
        ("token"@, json::JsonView::Str(e.token)),
        ("uid"@, json::JsonView::Int(e.uid as int)),
        ("home"@, json::JsonView::Str(e.home)),
        ("confinement"@, json::JsonView::Str(e.confinement.name())),
        key,
    );
}

/// The reply to a request to make sandboxes holds nothing else.
pub proof fn law_reply_to_a_creation_holds_nothing_else(c: Creation, key: Seq<char>)
    requires
        key != "sandboxes"@,
        key != "rejected"@,
    ensures
        json::member(c.done().body, key) is None,
{
    json::lemma_object_2_only(
        ("sandboxes"@, json::JsonView::Array(json::doc_trees(c.created@))),
        ("rejected"@, json::JsonView::Int(c.request.requested - c.created@.len())),
        key,
    );
}

} // verus!
