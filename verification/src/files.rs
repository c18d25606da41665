//! The file API: what a request asks of a file or a directory, and what it is told.
//!
//! On a dedicated server a path is an ordinary path. On a host it is resolved beneath the
//! home of the sandbox, as `fsutil` says.

use vstd::prelude::*;

use crate::exec;
use crate::fsutil;
use crate::fsutil::{normalize_relative, FileKind, ScopedRoot};
use crate::http;
use crate::http::{bool_param, number_param, Request};
use crate::json;
use crate::json::{list_doc, object_doc, text_doc, Doc};
use crate::number;
use crate::number::{write_decimal, write_number};
use crate::order;
use crate::order::{is_before, sort_by_name};
use crate::response;
use crate::response::{error_reply, object_reply, Reply, ResponseWriter};
use crate::sandboxes::SandboxEntry;
use crate::strmap;
use crate::text;
use crate::text::{chars_of, split_str, str_eq, string_of};

verus! {

// ---------------------------------------------------------------------------
// What a request is about
// ---------------------------------------------------------------------------

/// What a request is about.
pub enum Target {
    /// An ordinary path.
    Direct(String),
    /// A path beneath the home of a sandbox.
    Scoped(ScopedRoot, String),
}

impl Target {
    /// The path of the target, for messages and replies.
    pub open spec fn shown(&self) -> Seq<char> {
        match self {
            Target::Direct(path) => path@,
            Target::Scoped(root, rel) => fsutil::joined(root.home@, rel@),
        }
    }

    /// The path of the target, for messages and replies.
    pub fn display(&self) -> (r: String)
        ensures
            r@ == self.shown(),
    {
        match self {
            Target::Direct(path) => path.clone(),
            Target::Scoped(root, rel) => root.display(rel.as_str()),
        }
    }
}

/// The path that a request names, when it names one.
pub open spec fn path_in(params: Seq<(Seq<char>, Seq<char>)>) -> Option<Seq<char>> {
    match strmap::lookup(params, "path"@) {
        Some(p) => if p.len() > 0 {
            Some(p)
        } else {
            None
        },
        None => None,
    }
}

/// Finds out what a request is about. In a sandbox its path is made relative to the home.
pub fn require_path(request: &Request, sandbox: Option<&SandboxEntry>) -> (r: Result<Target, Reply>)
    ensures
        match r {
            Ok(Target::Direct(path)) => sandbox is None && path_in(request@.params) == Some(path@),
            Ok(Target::Scoped(root, rel)) => {
                &&& path_in(request@.params) is Some
                &&& rel@ == fsutil::normal_path(path_in(request@.params)->0)
                &&& sandbox matches Some(e) && root.home@ == e@.home && root.uid == e@.uid
            },
            Err(reply) => path_in(request@.params) is None && reply@ == response::error_view(
                400,
                "missing 'path' query parameter"@,
            ),
        },
{
    match request.params.get("path") {
        Some(raw) => {
            if raw.as_str().is_empty() {
                return Err(error_reply(400, "missing 'path' query parameter"));
            }
            match sandbox {
                None => Ok(Target::Direct(raw.clone())),
                Some(e) => Ok(
                    Target::Scoped(
                        ScopedRoot::new(e.home.as_str(), e.uid),
                        normalize_relative(raw.as_str()),
                    ),
                ),
            }
        },
        None => Err(error_reply(400, "missing 'path' query parameter")),
    }
}

/// The reply when the home of a sandbox cannot be opened.
pub fn home_failed(error: &str) -> (r: Reply)
    ensures
        r@ == response::error_view(500, "cannot open sandbox home: "@ + error@),
{
    let mut m: String = "cannot open sandbox home: ".to_owned();
    m.append(error);
    error_reply(500, m.as_str())
}

/// The errors of the file system that are told apart.
#[derive(Clone, Copy, Debug, PartialEq, Eq, Structural)]
pub enum FsErrorKind {
    /// A symbolic link stood where none is followed.
    Link,
    NotFound,
    Other,
}

/// What a client is told of an error of the file system. A link that was not followed
/// gets words of its own.
pub open spec fn fs_error_view(
    action: Seq<char>,
    path: Seq<char>,
    kind: FsErrorKind,
    error: Seq<char>,
) -> response::ReplyView {
    match kind {
        FsErrorKind::Link => response::error_view(
            400,
            "cannot "@ + action + " "@ + path
                + ": a path component is a symlink, which this API does not follow"@,
        ),
        FsErrorKind::NotFound => response::error_view(404, "no such path: "@ + path),
        FsErrorKind::Other => response::error_view(
            400,
            "cannot "@ + action + " "@ + path + ": "@ + error,
        ),
    }
}

/// What a client is told of an error of the file system.
pub fn fs_error(action: &str, path: &str, kind: FsErrorKind, error: &str) -> (r: Reply)
    ensures
        r@ == fs_error_view(action@, path@, kind, error@),
{
    match kind {
        FsErrorKind::Link => {
            let mut m: String = "cannot ".to_owned();
            m.append(action);
            m.append(" ");
            m.append(path);
            m.append(": a path component is a symlink, which this API does not follow");
            error_reply(400, m.as_str())
        },
        FsErrorKind::NotFound => {
            let mut m: String = "no such path: ".to_owned();
            m.append(path);
            error_reply(404, m.as_str())
        },
        FsErrorKind::Other => {
            let mut m: String = "cannot ".to_owned();
            m.append(action);
            m.append(" ");
            m.append(path);
            m.append(": ");
            m.append(error);
            error_reply(400, m.as_str())
        },
    }
}

// ---------------------------------------------------------------------------
// Reading
// ---------------------------------------------------------------------------

/// How much of a file is read at a time.
pub const READ_CHUNK: u64 = 262144;

/// The reply when a directory is asked for as a file.
pub fn is_a_directory(path: &str) -> (r: Reply)
    ensures
        r@ == response::error_view(409, "is a directory: "@ + path@),
{
    let mut m: String = "is a directory: ".to_owned();
    m.append(path);
    error_reply(409, m.as_str())
}

/// Where a request starts to read.
pub open spec fn read_offset(params: Seq<(Seq<char>, Seq<char>)>) -> u64 {
    match http::number_param_of(params, "offset"@, 10, u64::MAX as nat) {
        Some(n) => n as u64,
        None => 0,
    }
}

/// How much a request reads of a file: what it asks for, up to the end of the file.
pub open spec fn read_length(params: Seq<(Seq<char>, Seq<char>)>, size: u64) -> u64 {
    let rest = if size > read_offset(params) {
        (size - read_offset(params)) as u64
    } else {
        0
    };
    match http::number_param_of(params, "length"@, 10, u64::MAX as nat) {
        Some(n) => if n < rest {
            n as u64
        } else {
            rest
        },
        None => rest,
    }
}

/// A file that is being sent.
pub struct Download {
    /// Where to start in the file.
    pub offset: u64,
    /// How much was announced.
    pub length: u64,
    /// How much of that is still to be sent.
    pub remaining: u64,
}

impl Download {
    /// No more is left than was announced.
    pub open spec fn wf(&self) -> bool {
        self.remaining <= self.length
    }

    /// How much to read next; nothing at the end.
    pub fn want(&self) -> (r: u64)
        ensures
            r == (if self.remaining < READ_CHUNK {
                self.remaining
            } else {
                READ_CHUNK
            }),
            r == 0 <==> self.remaining == 0,
    {
        if self.remaining < READ_CHUNK {
            self.remaining
        } else {
            READ_CHUNK
        }
    }

    /// Sends what was read, no more than was asked for. Nothing means that the file has
    /// come to its end.
    pub fn took(&mut self, data: &[u8], resp: &mut ResponseWriter) -> (more: bool)
        requires
            old(self).wf(),
            data@.len() <= old(self).remaining,
        ensures
            final(self).wf(),
            final(self).offset == old(self).offset,
            final(self).length == old(self).length,
            final(self).remaining == old(self).remaining - data@.len(),
            final(resp).wrote(*old(resp), data@),
            final(resp).started == old(resp).started,
            final(resp).chunked == old(resp).chunked,
            more == (data@.len() > 0 && final(self).remaining > 0),
    {
        self.remaining = self.remaining - data.len() as u64;
        resp.raw(data);
        data.len() > 0 && self.remaining > 0
    }

    /// Ends the sending. When less went out than was announced, the connection has to be
    /// closed: what would follow on it would be taken for the rest of the file.
    pub fn finish(&self) -> (r: Result<(), &'static str>)
        ensures
            match r {
                Ok(_) => self.remaining == 0,
                Err(m) => self.remaining > 0 && m@
                    == "file shrank during read; closing the connection to avoid a desynchronised response"@,
            },
    {
        if self.remaining > 0 {
            Err("file shrank during read; closing the connection to avoid a desynchronised response")
        } else {
            Ok(())
        }
    }
}

/// Starts to send a file of the given size, as much of it as the request asks for.
pub fn handle_read(request: &Request, size: u64, resp: &mut ResponseWriter) -> (r: Download)
    ensures
        r.wf(),
        r.offset == read_offset(request@.params),
        r.length == read_length(request@.params, size),
        r.remaining == r.length,
        http::number_param_of(request@.params, "length"@, 10, u64::MAX as nat) is None ==> r.length
            == (if r.offset <= size {
            size - r.offset
        } else {
            0
        }),
        http::number_param_of(request@.params, "length"@, 10, u64::MAX as nat) matches Some(n)
            ==> r.length == (if r.offset > size {
            0
        } else if n < size - r.offset {
            n as int
        } else {
            size - r.offset
        }),
        http::number_param_of(request@.params, "offset"@, 10, u64::MAX as nat) is None ==> r.offset == 0,
        http::number_param_of(request@.params, "offset"@, 10, u64::MAX as nat) matches Some(n)
            ==> r.offset == n,
        final(resp).wrote(
            *old(resp),
            response::head_bytes(
                200,
                "application/octet-stream"@,
                old(resp).keep_alive,
                Some(r.length),
            ),
        ),
        final(resp).started,
        final(resp).chunked == old(resp).chunked,
{
    let offset: u64 = match number_param(&request.params, "offset", 10, u64::MAX) {
        Some(n) => n,
        None => 0,
    };
    let rest: u64 = size.saturating_sub(offset);
    let length: u64 = match number_param(&request.params, "length", 10, u64::MAX) {
        Some(n) => if n < rest {
            n
        } else {
            rest
        },
        None => rest,
    };
    resp.start_fixed(200, "application/octet-stream", length);
    Download { offset, length, remaining: length }
}

/// A request never reads behind the end of the file.
pub proof fn law_read_stays_in_the_file(params: Seq<(Seq<char>, Seq<char>)>, size: u64)
    ensures
        read_length(params, size) > 0 ==> read_offset(params) + read_length(params, size) <= size,
        http::number_param_of(params, "length"@, 10, u64::MAX as nat) matches Some(n) ==> read_length(
            params,
            size,
        ) <= n,
{
}

// ---------------------------------------------------------------------------
// Writing
// ---------------------------------------------------------------------------

/// How a request writes a file.
pub struct WritePlan {
    /// Whether directories that are missing are made.
    pub mkdir: bool,
    /// The permissions that the file gets.
    pub mode: Option<u32>,
    /// Where to write. Without it the file is emptied first.
    pub offset: Option<u64>,
    /// The size that the file has in the end.
    pub truncate_to: Option<u64>,
}

/// A number that may be missing.
pub open spec fn as_nat(n: Option<u64>) -> Option<nat> {
    match n {
        Some(n) => Some(n as nat),
        None => None,
    }
}

/// Reads how a request writes a file.
pub fn handle_write(request: &Request) -> (r: WritePlan)
    ensures
        r.mkdir == http::bool_param_of(request@.params, "mkdir"@, true),
        http::number_param_of(request@.params, "offset"@, 10, u64::MAX as nat) matches Some(n)
            ==> r.offset is Some && r.offset->0 == n,
        http::number_param_of(request@.params, "offset"@, 10, u64::MAX as nat) is None
            ==> r.offset is None,
        http::number_param_of(request@.params, "truncate_to"@, 10, u64::MAX as nat) matches Some(n)
            ==> r.truncate_to is Some && r.truncate_to->0 == n,
        http::number_param_of(request@.params, "truncate_to"@, 10, u64::MAX as nat) is None
            ==> r.truncate_to is None,
        match r.mode {
            Some(m) => http::number_param_of(request@.params, "mode"@, 8, u32::MAX as nat) == Some(
                m as nat,
            ),
            None => http::number_param_of(request@.params, "mode"@, 8, u32::MAX as nat) is None,
        },
        as_nat(r.offset) == http::number_param_of(request@.params, "offset"@, 10, u64::MAX as nat),
        as_nat(r.truncate_to) == http::number_param_of(
            request@.params,
            "truncate_to"@,
            10,
            u64::MAX as nat,
        ),
{
    let mode: Option<u32> = match number_param(&request.params, "mode", 8, u32::MAX as u64) {
        Some(n) => {
            assert(n <= u32::MAX);
            Some(n as u32)
        },
        None => None,
    };
    WritePlan {
        mkdir: bool_param(&request.params, "mkdir", true),
        mode,
        offset: number_param(&request.params, "offset", 10, u64::MAX),
        truncate_to: number_param(&request.params, "truncate_to", 10, u64::MAX),
    }
}

/// The reply when the place to write at cannot be reached.
pub fn seek_failed(path: &str, error: &str) -> (r: Reply)
    ensures
        r@ == response::error_view(400, "cannot seek in "@ + path@ + ": "@ + error@),
{
    let mut m: String = "cannot seek in ".to_owned();
    m.append(path);
    m.append(": ");
    m.append(error);
    error_reply(400, m.as_str())
}

/// The reply when a file cannot get its final size.
pub fn truncate_failed(path: &str, size: u64, error: &str) -> (r: Reply)
    ensures
        r@ == response::error_view(
            400,
            "cannot truncate "@ + path@ + " to "@ + number::decimal(size as nat) + ": "@ + error@,
        ),
{
    let mut m: String = "cannot truncate ".to_owned();
    m.append(path);
    m.append(" to ");
    m.append(write_decimal(size).as_str());
    m.append(": ");
    m.append(error);
    error_reply(400, m.as_str())
}

/// The reply when a file was written.
pub fn written_reply(path: &str, size: u64) -> (r: Reply)
    ensures
        r@ == response::ok_view(
            seq![("path"@, json::JsonView::Str(path@)), ("size"@, json::JsonView::Int(size as int))],
        ),
        r@.status == 200,
        json::member(r@.body, "path"@) == Some(json::JsonView::Str(path@)),
        json::member(r@.body, "size"@) == Some(json::JsonView::Int(size as int)),
{
    proof {
        reveal_strlit("path");
        reveal_strlit("size");
        assert("path"@.len() == 4);
        assert("size"@.len() == 4);
        assert("path"@[0] != "size"@[0]);
        json::lemma_object_2(
            ("path"@, json::JsonView::Str(path@)),
            ("size"@, json::JsonView::Int(size as int)),
        );
    }
    let mut members: Vec<(&'static str, Doc)> = Vec::new();
    members.push(("path", text_doc(path)));
    members.push(("size", Doc::Uint(size)));
    assert(json::doc_members(members@) =~= seq![
        ("path"@, json::JsonView::Str(path@)),
        ("size"@, json::JsonView::Int(size as int)),
    ]);
    object_reply(200, members)
}

// ---------------------------------------------------------------------------
// Entries
// ---------------------------------------------------------------------------

/// What is known of an entry.
#[derive(Clone, Copy, Debug, PartialEq, Eq, Structural)]
pub struct EntryMeta {
    pub kind: FileKind,
    pub size: u64,
    pub mtime_ms: Option<i64>,
    pub mode: u32,
}

/// An entry of a directory.
pub struct ListEntry {
    pub path: String,
    pub meta: EntryMeta,
}

/// The last piece of a path that counts.
pub open spec fn last_piece(parts: Seq<Seq<char>>) -> Option<Seq<char>>
    decreases parts.len(),
{
    if parts.len() == 0 {
        None
    } else if parts.last().len() == 0 || parts.last() == "."@ {
        last_piece(parts.drop_last())
    } else {
        Some(parts.last())
    }
}

/// The last name of a path; empty when the path does not end with one.
pub open spec fn file_name(path: Seq<char>) -> Seq<char> {
    match last_piece(fsutil::pieces(path)) {
        Some(name) => if name == ".."@ {
            Seq::empty()
        } else {
            name
        },
        None => Seq::empty(),
    }
}

/// The last name of a path.
pub fn name_of(path: &str) -> (r: String)
    ensures
        r@ == file_name(path@),
{
    let parts = split_str(path, '/');
    let ghost all = text::texts(parts@);
    let mut i: usize = parts.len();
    assert(all.take(i as int) =~= all);
    while i > 0
        invariant
            i <= parts@.len(),
            all == text::texts(parts@),
            all == fsutil::pieces(path@),
            last_piece(all) == last_piece(all.take(i as int)),
        decreases i,
    {
        let part = parts[i - 1];
        proof {
            assert(all.take(i as int).last() == part@);
            assert(all.take(i as int).drop_last() =~= all.take(i - 1));
        }
        if !(part.is_empty() || str_eq(part, ".")) {
            if str_eq(part, "..") {
                return String::new();
            }
            return part.to_owned();
        }
        i -= 1;
    }
    String::new()
}

/// What the kind of an entry is called.
pub open spec fn kind_name(kind: FileKind) -> Seq<char> {
    match kind {
        FileKind::Directory => "dir"@,
        FileKind::Symlink => "symlink"@,
        _ => "file"@,
    }
}

/// The time of the last change, where it is known.
pub open spec fn time_or_null(t: Option<i64>) -> json::JsonView {
    match t {
        Some(t) => json::JsonView::Int(t as int),
        None => json::JsonView::Null,
    }
}

/// What a client is told of an entry.
pub open spec fn entry_tree(path: Seq<char>, meta: EntryMeta) -> json::JsonView {
    json::object(
        seq![
            ("name"@, json::JsonView::Str(file_name(path))),
            ("path"@, json::JsonView::Str(path)),
            ("type"@, json::JsonView::Str(kind_name(meta.kind))),
            ("size"@, json::JsonView::Int(meta.size as int)),
            ("mtime_ms"@, time_or_null(meta.mtime_ms)),
            ("mode"@, json::JsonView::Str(number::numeral((meta.mode & 4095u32) as nat, 8))),
        ],
    )
}

/// What a client is told of an entry.
pub fn entry_json(path: &str, meta: EntryMeta) -> (r: Doc)
    ensures
        r.tree() == entry_tree(path@, meta),
        exists|t: Seq<char>|
            json::member(r.tree(), "mode"@) == Some(json::JsonView::Str(t)) && (
            #[trigger] number::read_digits(t, 8, 4095)) == Some((meta.mode % 4096) as nat),
        json::member(r.tree(), "size"@) == Some(json::JsonView::Int(meta.size as int)),
        json::member(r.tree(), "path"@) == Some(json::JsonView::Str(path@)),
{
    proof {
        law_entry_is_described(path@, meta);
    }
    let kind = match meta.kind {
        FileKind::Directory => "dir",
        FileKind::Symlink => "symlink",
        _ => "file",
    };
    let time = match meta.mtime_ms {
        Some(t) => Doc::Int(t),
        None => Doc::Null,
    };
    let bits: u32 = meta.mode & 4095u32;
    let mut members: Vec<(&'static str, Doc)> = Vec::new();
    members.push(("name", text_doc(name_of(path).as_str())));
    members.push(("path", text_doc(path)));
    members.push(("type", text_doc(kind)));
    members.push(("size", Doc::Uint(meta.size)));
    members.push(("mtime_ms", time));
    members.push(("mode", text_doc(write_number(bits as u64, 8).as_str())));
    assert(json::doc_members(members@) =~= seq![
        ("name"@, json::JsonView::Str(file_name(path@))),
        ("path"@, json::JsonView::Str(path@)),
        ("type"@, json::JsonView::Str(kind_name(meta.kind))),
        ("size"@, json::JsonView::Int(meta.size as int)),
        ("mtime_ms"@, time_or_null(meta.mtime_ms)),
        ("mode"@, json::JsonView::Str(number::numeral((meta.mode & 4095u32) as nat, 8))),
    ]);
    object_doc(members)
}

// ---------------------------------------------------------------------------
// Listing
// ---------------------------------------------------------------------------

/// The most entries in one reply when the request does not say.
pub const DEFAULT_LIMIT: usize = 10_000;

/// The most entries in one reply.
pub const MAX_LIMIT: usize = 50_000;

/// The most entries in the reply to a request.
pub open spec fn limit_in(params: Seq<(Seq<char>, Seq<char>)>) -> nat {
    match http::number_param_of(params, "limit"@, 10, usize::MAX as nat) {
        Some(n) => if n < MAX_LIMIT {
            n
        } else {
            MAX_LIMIT as nat
        },
        None => DEFAULT_LIMIT as nat,
    }
}

/// The name behind which a request goes on.
pub open spec fn after_in(params: Seq<(Seq<char>, Seq<char>)>) -> Seq<char> {
    match strmap::lookup(params, "after"@) {
        Some(name) => name,
        None => Seq::empty(),
    }
}

/// The names of entries.
pub open spec fn names_in(entries: Seq<ListEntry>) -> Seq<Seq<char>> {
    Seq::new(entries.len(), |i: int| file_name(entries[i].path@))
}

/// Whether positions are those of all names behind `after`, each once, in order. Entries
/// of the same name stay in the order in which they were found.
pub open spec fn is_order(order: Seq<usize>, names: Seq<Seq<char>>, after: Seq<char>) -> bool {
    &&& order.no_duplicates()
    &&& order::within_names(order, names)
    &&& order::ordered(order, names)
    &&& forall|i: usize|
        i < names.len() ==> (#[trigger] order.contains(i) <==> order::before(after, names[i as int]))
}

proof fn lemma_same_order(a: Seq<usize>, b: Seq<usize>, names: Seq<Seq<char>>)
    requires
        a.no_duplicates(),
        b.no_duplicates(),
        order::ordered(a, names),
        order::ordered(b, names),
        forall|i: usize| #[trigger] a.contains(i) <==> b.contains(i),
    ensures
        a == b,
    decreases a.len(),
{
    if a.len() == 0 {
        if b.len() > 0 {
            assert(b.contains(b[0]));
            assert(a.contains(b[0]));
        }
        assert(a =~= b);
    } else {
        let x = a[a.len() - 1];
        assert(a.contains(x));
        assert(b.contains(x));
        let y = b[b.len() - 1];
        assert(b.contains(y));
        assert(a.contains(y));
        let i = choose|i: int| 0 <= i < a.len() && a[i] == y;
        let k = choose|k: int| 0 <= k < b.len() && b[k] == x;
        if x != y {
            assert(!order::ranks(names, a[a.len() - 1], a[i]));
            assert(!order::ranks(names, b[b.len() - 1], b[k]));
            order::lemma_ranks_total(names, x, y);
        }
        let c = a.drop_last();
        let d = b.drop_last();
        assert forall|i: usize| #[trigger] c.contains(i) <==> d.contains(i) by {
            if c.contains(i) {
                let p = choose|p: int| 0 <= p < c.len() && c[p] == i;
                assert(a[p] == i);
                assert(a.contains(i));
                let q = choose|q: int| 0 <= q < b.len() && b[q] == i;
                assert(d[q] == i);
            }
            if d.contains(i) {
                let p = choose|p: int| 0 <= p < d.len() && d[p] == i;
                assert(b[p] == i);
                assert(b.contains(i));
                assert(a.contains(i));
                let q = choose|q: int| 0 <= q < a.len() && a[q] == i;
                assert(c[q] == i);
            }
        }
        assert forall|j: int, k: int| 0 <= j < k < c.len() implies !order::ranks(
            names,
            #[trigger] c[k],
            #[trigger] c[j],
        ) by {
            assert(!order::ranks(names, a[k], a[j]));
        }
        assert forall|j: int, k: int| 0 <= j < k < d.len() implies !order::ranks(
            names,
            #[trigger] d[k],
            #[trigger] d[j],
        ) by {
            assert(!order::ranks(names, b[k], b[j]));
        }
        lemma_same_order(c, d, names);
        assert(a =~= c.push(x));
        assert(b =~= d.push(y));
    }
}

/// There is only one such order, so a listing is the same whenever the directory is.
pub proof fn law_listing_has_one_order(
    a: Seq<usize>,
    b: Seq<usize>,
    names: Seq<Seq<char>>,
    after: Seq<char>,
)
    requires
        is_order(a, names, after),
        is_order(b, names, after),
    ensures
        a == b,
{
    assert forall|i: usize| #[trigger] a.contains(i) <==> b.contains(i) by {
        if a.contains(i) {
            let k = choose|k: int| 0 <= k < a.len() && a[k] == i;
            assert(a[k] < names.len());
        }
        if b.contains(i) {
            let k = choose|k: int| 0 <= k < b.len() && b[k] == i;
            assert(b[k] < names.len());
        }
    }
    lemma_same_order(a, b, names);
}

/// The part of an order that one reply shows.
pub open spec fn shown_part(order: Seq<usize>, limit: nat) -> Seq<usize> {
    if order.len() > limit {
        order.take(limit as int)
    } else {
        order
    }
}

/// The name behind which the next request goes on, when there is more.
pub open spec fn next_name(order: Seq<usize>, names: Seq<Seq<char>>, limit: nat) -> Option<
    Seq<char>,
> {
    if order.len() > limit && limit > 0 {
        Some(names[order[limit - 1] as int])
    } else {
        None
    }
}

/// The reply with one part of a listing.
pub open spec fn page_view(entries: Seq<ListEntry>, order: Seq<usize>, limit: nat) -> response::ReplyView {
    let part = shown_part(order, limit);
    response::ok_view(
        seq![
            (
                "entries"@,
                json::JsonView::Array(
                    Seq::new(
                        part.len(),
                        |k: int|
                            entry_tree(
                                entries[part[k] as int].path@,
                                entries[part[k] as int].meta,
                            ),
                    ),
                ),
            ),
            ("truncated"@, json::JsonView::Bool(order.len() > limit)),
            ("next"@, exec::text_or_null(next_name(order, names_in(entries), limit))),
        ],
    )
}

/// The names of entries, character by character.
fn entry_names(entries: &Vec<ListEntry>) -> (r: Vec<Vec<char>>)
    ensures
        text::rows(r@) == names_in(entries@),
{
    let mut r: Vec<Vec<char>> = Vec::new();
    let mut i: usize = 0;
    while i < entries.len()
        invariant
            i <= entries@.len(),
            r@.len() == i,
            forall|j: int| 0 <= j < i ==> (#[trigger] r@[j])@ == file_name(entries@[j].path@),
        decreases entries@.len() - i,
    {
        let name = name_of(entries[i].path.as_str());
        r.push(chars_of(name.as_str()));
        i += 1;
    }
    assert(text::rows(r@) =~= names_in(entries@));
    r
}

/// The positions of the names behind `after`, in order.
fn order_behind(names: &Vec<Vec<char>>, after: &[char]) -> (r: Vec<usize>)
    ensures
        is_order(r@, text::rows(names@), after@),
{
    let ghost ns = text::rows(names@);
    let mut kept: Vec<usize> = Vec::new();
    let mut i: usize = 0;
    while i < names.len()
        invariant
            i <= names@.len(),
            ns == text::rows(names@),
            forall|k: int| 0 <= k < kept@.len() ==> (#[trigger] kept@[k]) < i,
            kept@.no_duplicates(),
            forall|j: usize|
                j < i ==> (#[trigger] kept@.contains(j) <==> order::before(after@, ns[j as int])),
        decreases names@.len() - i,
    {
        let ghost old_kept = kept@;
        assert(ns[i as int] == names@[i as int]@);
        if is_before(after, names[i].as_slice()) {
            kept.push(i);
            assert(kept@[old_kept.len() as int] == i);
        }
        proof {
            assert forall|j: usize| j < i + 1 implies (#[trigger] kept@.contains(j)
                <==> order::before(after@, ns[j as int])) by {
                if j < i {
                    if old_kept.contains(j) {
                        let k = choose|k: int| 0 <= k < old_kept.len() && old_kept[k] == j;
                        assert(kept@[k] == j);
                    }
                    if kept@.contains(j) {
                        let k = choose|k: int| 0 <= k < kept@.len() && kept@[k] == j;
                        assert(k < old_kept.len());
                        assert(old_kept[k] == j);
                        assert(old_kept.contains(j));
                    }
                } else if kept@.contains(j) && !order::before(after@, ns[j as int]) {
                    let k = choose|k: int| 0 <= k < kept@.len() && kept@[k] == j;
                    assert(kept@[k] < i);
                }
            }
        }
        i += 1;
    }
    let r = sort_by_name(names, &kept);
    proof {
        broadcast use vstd::seq_lib::group_to_multiset_ensures;

        kept@.lemma_multiset_has_no_duplicates();
        r@.lemma_multiset_has_no_duplicates_conv();
        assert forall|j: usize| j < ns.len() implies (#[trigger] r@.contains(j) <==> order::before(
            after@,
            ns[j as int],
        )) by {
            assert(r@.contains(j) <==> r@.to_multiset().count(j) > 0);
            assert(kept@.contains(j) <==> kept@.to_multiset().count(j) > 0);
        }
    }
    r
}

/// The reply to a request that lists a directory: the entries behind the name that it
/// gives, in the order of their names, up to its limit.
pub fn handle_list(request: &Request, entries: &Vec<ListEntry>) -> (r: Reply)
    ensures
        exists|order: Seq<usize>| #[trigger]
            is_order(order, names_in(entries@), after_in(request@.params)) && r@ == page_view(
                entries@,
                order,
                limit_in(request@.params),
            ),
{
    let limit: usize = match number_param(&request.params, "limit", 10, usize::MAX as u64) {
        Some(n) => if n < MAX_LIMIT as u64 {
            n as usize
        } else {
            MAX_LIMIT
        },
        None => DEFAULT_LIMIT,
    };
    let after: Vec<char> = match request.params.get("after") {
        Some(name) => chars_of(name.as_str()),
        None => Vec::new(),
    };
    assert(after@ =~= after_in(request@.params));
    let names = entry_names(entries);
    let ghost ns = names_in(entries@);
    let order = order_behind(&names, after.as_slice());
    let truncated = order.len() > limit;
    let count: usize = if truncated {
        limit
    } else {
        order.len()
    };
    let ghost part = shown_part(order@, limit as nat);
    let mut items: Vec<Doc> = Vec::new();
    let mut i: usize = 0;
    while i < count
        invariant
            i <= count,
            count == part.len(),
            count <= order@.len(),
            forall|k: int| 0 <= k < count ==> part[k] == order@[k],
            order::within_names(order@, ns),
            ns == names_in(entries@),
            items@.len() == i,
            forall|k: int|
                0 <= k < i ==> (#[trigger] items@[k]).tree() == entry_tree(
                    entries@[part[k] as int].path@,
                    entries@[part[k] as int].meta,
                ),
        decreases count - i,
    {
        let at: usize = order[i];
        assert(order@[i as int] < ns.len());
        items.push(entry_json(entries[at].path.as_str(), entries[at].meta));
        i += 1;
    }
    let next: Option<String> = if truncated && limit > 0 {
        let at: usize = order[limit - 1];
        assert(order@[limit - 1] < ns.len());
        assert(ns[at as int] == names@[at as int]@) by {
            assert(text::rows(names@)[at as int] == names@[at as int]@);
        }
        Some(string_of(names[at].as_slice()))
    } else {
        None
    };
    let next_doc = exec::opt_text_doc(&next);
    let mut members: Vec<(&'static str, Doc)> = Vec::new();
    let ghost shown = Seq::new(
        part.len(),
        |k: int| entry_tree(entries@[part[k] as int].path@, entries@[part[k] as int].meta),
    );
    assert(json::doc_trees(items@) =~= shown);
    members.push(("entries", list_doc(items)));
    members.push(("truncated", Doc::Bool(truncated)));
    members.push(("next", next_doc));
    assert(json::doc_members(members@) =~= seq![
        ("entries"@, json::JsonView::Array(shown)),
        ("truncated"@, json::JsonView::Bool(order@.len() > limit)),
        ("next"@, exec::text_or_null(next_name(order@, ns, limit as nat))),
    ]);
    let r = object_reply(200, members);
    assert(is_order(order@, ns, after_in(request@.params)));
    assert(r@ == page_view(entries@, order@, limit as nat));
    r
}

/// A client that goes on behind the last name it was shown misses nothing and sees
/// nothing twice: behind that name is exactly what was not shown. Names in one directory
/// are different.
pub proof fn law_next_page_goes_on_where_the_last_ended(
    order: Seq<usize>,
    names: Seq<Seq<char>>,
    after: Seq<char>,
    limit: nat,
    i: usize,
)
    requires
        is_order(order, names, after),
        forall|a: int, b: int|
            0 <= a < b < names.len() ==> #[trigger] names[a] != #[trigger] names[b],
        0 < limit < order.len(),
        i < names.len(),
    ensures
        next_name(order, names, limit) is Some,
        order::before(next_name(order, names, limit)->0, names[i as int]) <==> order.skip(
            limit as int,
        ).contains(i),
{
    let next = names[order[limit - 1] as int];
    let rest = order.skip(limit as int);
    assert(order[limit - 1] < names.len());
    if rest.contains(i) {
        let k = choose|k: int| 0 <= k < rest.len() && rest[k] == i;
        assert(order[limit + k] == i);
        assert(!order::ranks(names, order[limit + k], order[limit - 1]));
        order::lemma_before_total(next, names[i as int]);
        if next == names[i as int] {
            assert(order[limit - 1] != order[limit + k]);
            let a = order[limit - 1] as int;
            let b = i as int;
            if a < b {
                assert(names[a] != names[b]);
            } else {
                assert(names[b] != names[a]);
            }
        }
    }
    if order::before(next, names[i as int]) {
        assert(order.contains(order[limit - 1]));
        order::lemma_before_trans(after, next, names[i as int]);
        assert(order.contains(i));
        let k = choose|k: int| 0 <= k < order.len() && order[k] == i;
        if k < limit - 1 {
            assert(!order::ranks(names, order[limit - 1], order[k]));
        } else if k == limit - 1 {
            order::lemma_before_total(next, next);
        } else {
            assert(rest[k - limit] == i);
        }
    }
}

// ---------------------------------------------------------------------------
// The other operations
// ---------------------------------------------------------------------------

/// The reply to a request that looks at an entry.
pub fn handle_stat(path: &str, meta: EntryMeta) -> (r: Reply)
    ensures
        r@ == (response::ReplyView { status: 200, body: entry_tree(path@, meta) }),
{
    Reply { status: 200, body: entry_json(path, meta) }
}

/// Whether a request deletes a directory with what is in it.
pub fn wants_recursive(request: &Request) -> (r: bool)
    ensures
        r == http::bool_param_of(request@.params, "recursive"@, false),
{
    bool_param(&request.params, "recursive", false)
}

/// The reply when something was deleted.
pub fn handle_delete(path: &str) -> (r: Reply)
    ensures
        r@ == response::ok_view(seq![("deleted"@, json::JsonView::Str(path@))]),
{
    let mut members: Vec<(&'static str, Doc)> = Vec::new();
    members.push(("deleted", text_doc(path)));
    assert(json::doc_members(members@) =~= seq![("deleted"@, json::JsonView::Str(path@))]);
    object_reply(200, members)
}

/// The reply when a directory was made.
pub fn handle_mkdir(path: &str) -> (r: Reply)
    ensures
        r@ == response::ok_view(seq![("created"@, json::JsonView::Str(path@))]),
{
    let mut members: Vec<(&'static str, Doc)> = Vec::new();
    members.push(("created", text_doc(path)));
    assert(json::doc_members(members@) =~= seq![("created"@, json::JsonView::Str(path@))]);
    object_reply(200, members)
}

// ---------------------------------------------------------------------------
// What the file API does
// ---------------------------------------------------------------------------

/// A request names a path when it gives one that is not empty, and none otherwise.
pub proof fn law_path_of_a_request(params: Seq<(Seq<char>, Seq<char>)>, p: Seq<char>)
    ensures
        strmap::lookup(params, "path"@) == Some(p) && p.len() > 0 ==> path_in(params) == Some(p),
        strmap::lookup(params, "path"@) == Some(Seq::<char>::empty()) ==> path_in(params) is None,
        strmap::lookup(params, "path"@) is None ==> path_in(params) is None,
{
}

/// What is shown of a target is its path, beneath the home of the sandbox where it has one.
pub proof fn law_target_is_shown(path: String, root: ScopedRoot, rel: String)
    ensures
        Target::Direct(path).shown() == path@,
        root.home@.len() > 0 && root.home@.last() != '/' && (rel@.len() == 0 || rel@[0] != '/')
            ==> Target::Scoped(root, rel).shown() == root.home@ + seq!['/'] + rel@,
{
}

/// What is not there is answered with 404, and every other error of the file system with 400;
/// the words say what was tried on which path, and why it failed.
pub proof fn law_errors_of_the_file_system(action: Seq<char>, path: Seq<char>, error: Seq<char>)
    ensures
        fs_error_view(action, path, FsErrorKind::NotFound, error).status == 404,
        json::member(fs_error_view(action, path, FsErrorKind::NotFound, error).body, "error"@) == Some(
            json::JsonView::Str("no such path: "@ + path),
        ),
        fs_error_view(action, path, FsErrorKind::Other, error).status == 400,
        json::member(fs_error_view(action, path, FsErrorKind::Other, error).body, "error"@) == Some(
            json::JsonView::Str("cannot "@ + action + " "@ + path + ": "@ + error),
        ),
        fs_error_view(action, path, FsErrorKind::Link, error).status == 400,
        json::member(fs_error_view(action, path, FsErrorKind::Link, error).body, "error"@) == Some(
            json::JsonView::Str(
                "cannot "@ + action + " "@ + path
                    + ": a path component is a symlink, which this API does not follow"@,
            ),
        ),
{
    response::law_error_says_what_is_wrong(404, "no such path: "@ + path);
    response::law_error_says_what_is_wrong(
        400,
        "cannot "@ + action + " "@ + path + ": "@ + error,
    );
    response::law_error_says_what_is_wrong(
        400,
        "cannot "@ + action + " "@ + path
            + ": a path component is a symlink, which this API does not follow"@,
    );
}

/// A read starts at the offset that the request gives, or at the start of the file. Without a
/// length it gets everything from there to the end of the file; with one it gets that much, or
/// what is left of the file where that is less; and behind the end there is nothing.
pub proof fn law_read_gets_what_it_asks_for(params: Seq<(Seq<char>, Seq<char>)>, size: u64, n: nat)
    ensures
        http::number_param_of(params, "offset"@, 10, u64::MAX as nat) is None ==> read_offset(params)
            == 0,
        http::number_param_of(params, "offset"@, 10, u64::MAX as nat) == Some(n) && n <= u64::MAX
            ==> read_offset(params) == n,
        http::number_param_of(params, "length"@, 10, u64::MAX as nat) is None && read_offset(params)
            <= size ==> read_offset(params) + read_length(params, size) == size,
        http::number_param_of(params, "length"@, 10, u64::MAX as nat) == Some(n) && read_offset(params)
            + n <= size ==> read_length(params, size) == n,
        http::number_param_of(params, "length"@, 10, u64::MAX as nat) == Some(n) && read_offset(params)
            <= size < read_offset(params) + n ==> read_offset(params) + read_length(params, size)
            == size,
        read_offset(params) > size ==> read_length(params, size) == 0,
        READ_CHUNK == 256 * 1024,
{
}

/// The parts of a file that two reads get, the second from where the first ended, are together
/// the part that one read of both lengths gets.
pub proof fn law_reads_go_on_from_each_other(
    first: Seq<(Seq<char>, Seq<char>)>,
    second: Seq<(Seq<char>, Seq<char>)>,
    both: Seq<(Seq<char>, Seq<char>)>,
    size: u64,
    n: nat,
    m: nat,
)
    requires
        n + m <= u64::MAX,
        http::number_param_of(first, "length"@, 10, u64::MAX as nat) == Some(n),
        http::number_param_of(second, "length"@, 10, u64::MAX as nat) == Some(m),
        http::number_param_of(both, "length"@, 10, u64::MAX as nat) == Some(n + m),
        read_offset(both) == read_offset(first),
        read_offset(second) == read_offset(first) + n,
    ensures
        read_length(first, size) + read_length(second, size) == read_length(both, size),
{
}

/// The last name of a path is the name that it ends with, slashes and `.` behind it left out;
/// a path that ends with `..` has none.
pub proof fn law_name_is_the_last_of_the_path(path: Seq<char>, name: Seq<char>)
    requires
        fsutil::plain(name),
    ensures
        file_name(path + seq!['/'] + name) == name,
        file_name(name) == name,
        file_name(path + seq!['/']) == file_name(path),
        file_name(path + seq!['/', '.']) == file_name(path),
        file_name(path + seq!['/', '.', '.']).len() == 0,
        file_name(Seq::empty()).len() == 0,
{
    fsutil::lemma_dots();
    let slash = seq!['/'];
    let none = Seq::<char>::empty();
    fsutil::lemma_one_more_piece(path, name);
    fsutil::lemma_one_more_piece(path, none);
    assert(path + slash + none =~= path + slash);
    fsutil::lemma_one_more_piece(path, "."@);
    assert(path + slash + "."@ =~= path + seq!['/', '.']);
    fsutil::lemma_one_more_piece(path, ".."@);
    assert(path + slash + ".."@ =~= path + seq!['/', '.', '.']);
    assert(fsutil::pieces(name).last() == name);
    assert(fsutil::pieces(none).last() == none);
    assert(last_piece(fsutil::pieces(none).drop_last()) is None);
}

/// What a client is told of an entry: its name and path, whether it is a directory, a link or
/// a file, its size, when it was last changed, where that is known, and the low twelve bits of
/// its mode, in base 8, whatever kind it is.
pub proof fn law_entry_is_described(path: Seq<char>, meta: EntryMeta)
    ensures
        json::member(entry_tree(path, meta), "name"@) == Some(json::JsonView::Str(file_name(path))),
        json::member(entry_tree(path, meta), "path"@) == Some(json::JsonView::Str(path)),
        json::member(entry_tree(path, meta), "type"@) == Some(
            json::JsonView::Str(
                if meta.kind is Directory {
                    "dir"@
                } else if meta.kind is Symlink {
                    "symlink"@
                } else {
                    "file"@
                },
            ),
        ),
        json::member(entry_tree(path, meta), "size"@) == Some(json::JsonView::Int(meta.size as int)),
        meta.mtime_ms matches Some(t) ==> json::member(entry_tree(path, meta), "mtime_ms"@) == Some(
            json::JsonView::Int(t as int),
        ),
        meta.mtime_ms is None ==> json::member(entry_tree(path, meta), "mtime_ms"@) == Some(
            json::JsonView::Null,
        ),
        json::member(entry_tree(path, meta), "mode"@) is Some,
        json::member(entry_tree(path, meta), "mode"@)->0 is Str,
        number::read_digits(json::member(entry_tree(path, meta), "mode"@)->0->Str_0, 8, 4095) == Some(
            (meta.mode % 4096) as nat,
        ),
{
    reveal_strlit("name");
    reveal_strlit("path");
    reveal_strlit("type");
    reveal_strlit("size");
    reveal_strlit("mtime_ms");
    reveal_strlit("mode");
    assert("name"@.len() == 4);
    assert("path"@.len() == 4);
    assert("type"@.len() == 4);
    assert("size"@.len() == 4);
    assert("mtime_ms"@.len() == 8);
    assert("mode"@.len() == 4);
    assert("name"@[0] != "path"@[0]);
    assert("name"@[0] != "type"@[0]);
    assert("name"@[0] != "size"@[0]);
    assert("name"@[0] != "mode"@[0]);
    assert("path"@[0] != "type"@[0]);
    assert("path"@[0] != "size"@[0]);
    assert("path"@[0] != "mode"@[0]);
    assert("type"@[0] != "size"@[0]);
    assert("type"@[0] != "mode"@[0]);
    assert("size"@[0] != "mode"@[0]);
    let mode = meta.mode;
    assert(mode & 4095u32 == mode % 4096u32) by (bit_vector);
    let t = number::numeral((mode & 4095u32) as nat, 8);
    number::law_numeral_reads_back((mode & 4095u32) as nat, 8, 4095);
    json::lemma_object_6(
        ("name"@, json::JsonView::Str(file_name(path))),
        ("path"@, json::JsonView::Str(path)),
        ("type"@, json::JsonView::Str(kind_name(meta.kind))),
        ("size"@, json::JsonView::Int(meta.size as int)),
        ("mtime_ms"@, time_or_null(meta.mtime_ms)),
        ("mode"@, json::JsonView::Str(t)),
    );
    assert(number::read_digits(t, 8, 4095) == Some((mode % 4096) as nat));
}

/// A listing shows as many entries as the request asks for, ten thousand when it does not say,
/// and never more than fifty thousand; it goes on behind the name that the request gives.
pub proof fn law_listing_is_limited(params: Seq<(Seq<char>, Seq<char>)>, n: nat)
    ensures
        http::number_param_of(params, "limit"@, 10, usize::MAX as nat) is None ==> limit_in(params)
            == 10000,
        http::number_param_of(params, "limit"@, 10, usize::MAX as nat) == Some(n) && n <= 50000
            ==> limit_in(params) == n,
        http::number_param_of(params, "limit"@, 10, usize::MAX as nat) == Some(n) && n > 50000
            ==> limit_in(params) == 50000,
        strmap::lookup(params, "after"@) matches Some(name) ==> after_in(params) == name,
        strmap::lookup(params, "after"@) is None ==> after_in(params).len() == 0,
{
}

/// One reply of a listing shows the entries at the first positions of the order, as many as
/// the limit admits, each described as it is; it says whether there are more, and behind which
/// name they are.
pub proof fn law_page_shows_the_first_entries(
    entries: Seq<ListEntry>,
    order: Seq<usize>,
    limit: nat,
    k: int,
)
    ensures
        page_view(entries, order, limit).status == 200,
        json::member(page_view(entries, order, limit).body, "truncated"@) == Some(
            json::JsonView::Bool(order.len() > limit),
        ),
        json::member(page_view(entries, order, limit).body, "entries"@) is Some,
        json::member(page_view(entries, order, limit).body, "entries"@)->0 is Array,
        json::member(page_view(entries, order, limit).body, "entries"@)->0->Array_0.len() == (
        if order.len() <= limit {
            order.len()
        } else {
            limit
        }),
        0 <= k < order.len() && k < limit ==> json::member(
            page_view(entries, order, limit).body,
            "entries"@,
        )->0->Array_0[k] == entry_tree(
            entries[order[k] as int].path@,
            entries[order[k] as int].meta,
        ),
        order.len() <= limit || limit == 0 ==> json::member(
            page_view(entries, order, limit).body,
            "next"@,
        ) == Some(json::JsonView::Null),
        0 < limit < order.len() && order[limit - 1] < entries.len() ==> json::member(
            page_view(entries, order, limit).body,
            "next"@,
        ) == Some(json::JsonView::Str(file_name(entries[order[limit - 1] as int].path@))),
{
    reveal_strlit("entries");
    reveal_strlit("truncated");
    reveal_strlit("next");
    assert("entries"@.len() == 7);
    assert("truncated"@.len() == 9);
    assert("next"@.len() == 4);
    let part = shown_part(order, limit);
    let shown = Seq::new(
        part.len(),
        |k: int| entry_tree(entries[part[k] as int].path@, entries[part[k] as int].meta),
    );
    json::lemma_object_3(
        ("entries"@, json::JsonView::Array(shown)),
        ("truncated"@, json::JsonView::Bool(order.len() > limit)),
        ("next"@, exec::text_or_null(next_name(order, names_in(entries), limit))),
    );
}

/// The order of a listing holds every entry whose name comes behind the given one, once, and
/// no other; an empty name leaves out only an entry without a name.
pub proof fn law_listing_holds_every_entry(
    order: Seq<usize>,
    entries: Seq<ListEntry>,
    after: Seq<char>,
    i: usize,
)
    requires
        is_order(order, names_in(entries), after),
        i < entries.len(),
    ensures
        order.contains(i) <==> order::before(after, file_name(entries[i as int].path@)),
        after.len() == 0 && file_name(entries[i as int].path@).len() > 0 ==> order.contains(i),
        order.no_duplicates(),
        order::within_names(order, names_in(entries)),
        order::ordered(order, names_in(entries)),
        names_in(entries).len() == entries.len(),
{
    assert(names_in(entries)[i as int] == file_name(entries[i as int].path@));
}

/// The client is told nothing else of an entry.
pub proof fn law_entry_tells_nothing_else(path: Seq<char>, meta: EntryMeta, key: Seq<char>)
    requires
        key != "name"@,
        key != "path"@,
        key != "type"@,
        key != "size"@,
        key != "mtime_ms"@,
        key != "mode"@,
    ensures
        json::member(entry_tree(path, meta), key) is None,
{
    json::lemma_object_6_only(
        ("name"@, json::JsonView::Str(file_name(path))),
        ("path"@, json::JsonView::Str(path)),
        ("type"@, json::JsonView::Str(kind_name(meta.kind))),
        ("size"@, json::JsonView::Int(meta.size as int)),
        ("mtime_ms"@, time_or_null(meta.mtime_ms)),
        ("mode"@, json::JsonView::Str(number::numeral((meta.mode & 4095u32) as nat, 8))),
        key,
    );
}

} // verus!
