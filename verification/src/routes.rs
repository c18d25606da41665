//! The routes of the server: what a method and a path ask for.

use vstd::prelude::*;

use crate::auth;
use crate::auth::is_host_path;
use crate::text;
use crate::text::str_eq;

verus! {

/// What is asked of a sandbox, or of the job where that is the sandbox.
pub enum Op<'a> {
    Exec,
    ProcessStart,
    ProcessList,
    /// The process with this name.
    ProcessDelete(&'a str),
    FileRead,
    FileWrite,
    FileList,
    FileStat,
    FileDelete,
    FileMkdir,
    /// The rest of the path behind `proxy`, with the empty segment that a slash at its end
    /// makes.
    Proxy(Vec<&'a str>),
}

/// What is asked of a sandbox.
pub enum OpView {
    Exec,
    ProcessStart,
    ProcessList,
    ProcessDelete(Seq<char>),
    FileRead,
    FileWrite,
    FileList,
    FileStat,
    FileDelete,
    FileMkdir,
    Proxy(Seq<Seq<char>>),
}

impl<'a> View for Op<'a> {
    type V = OpView;

    open spec fn view(&self) -> OpView {
        match self {
            Op::Exec => OpView::Exec,
            Op::ProcessStart => OpView::ProcessStart,
            Op::ProcessList => OpView::ProcessList,
            Op::ProcessDelete(id) => OpView::ProcessDelete(id@),
            Op::FileRead => OpView::FileRead,
            Op::FileWrite => OpView::FileWrite,
            Op::FileList => OpView::FileList,
            Op::FileStat => OpView::FileStat,
            Op::FileDelete => OpView::FileDelete,
            Op::FileMkdir => OpView::FileMkdir,
            Op::Proxy(rest) => OpView::Proxy(text::texts(rest@)),
        }
    }
}

/// What a request asks for.
pub enum Route<'a> {
    /// Something of one sandbox, or of the job.
    Op(Option<&'a str>, Op<'a>),
    Create,
    ListSandboxes,
    DeleteAll,
    /// The token of the sandbox with this id.
    Token(&'a str),
    /// The sandbox with this id.
    DeleteSandbox(&'a str),
    Unknown,
}

/// What a request asks for.
pub enum RouteView {
    Op(Option<Seq<char>>, OpView),
    Create,
    ListSandboxes,
    DeleteAll,
    Token(Seq<char>),
    DeleteSandbox(Seq<char>),
    Unknown,
}

impl<'a> View for Route<'a> {
    type V = RouteView;

    open spec fn view(&self) -> RouteView {
        match self {
            Route::Op(id, op) => RouteView::Op(
                match id {
                    Some(id) => Some(id@),
                    None => None,
                },
                op@,
            ),
            Route::Create => RouteView::Create,
            Route::ListSandboxes => RouteView::ListSandboxes,
            Route::DeleteAll => RouteView::DeleteAll,
            Route::Token(id) => RouteView::Token(id@),
            Route::DeleteSandbox(id) => RouteView::DeleteSandbox(id@),
            Route::Unknown => RouteView::Unknown,
        }
    }
}

/// What a method asks of the file API.
pub open spec fn file_op(method: Seq<char>, name: Seq<char>) -> Option<OpView> {
    if method == "GET"@ && name == "read"@ {
        Some(OpView::FileRead)
    } else if method == "PUT"@ && name == "write"@ {
        Some(OpView::FileWrite)
    } else if method == "GET"@ && name == "list"@ {
        Some(OpView::FileList)
    } else if method == "GET"@ && name == "stat"@ {
        Some(OpView::FileStat)
    } else if method == "DELETE"@ && name == "delete"@ {
        Some(OpView::FileDelete)
    } else if method == "POST"@ && name == "mkdir"@ {
        Some(OpView::FileMkdir)
    } else {
        None
    }
}

/// The segments from position `from` on.
pub open spec fn tail(segments: Seq<Seq<char>>, from: int) -> Seq<Seq<char>> {
    if from <= segments.len() {
        segments.skip(from)
    } else {
        Seq::empty()
    }
}

/// What a method and the path within a sandbox ask for. The routes of a sandbox are those
/// of a dedicated server behind another prefix. `behind` is what follows the first segment
/// when no slash at the end of the path is dropped: a path that is passed on stays whole.
pub open spec fn op_of(
    method: Seq<char>,
    rest: Seq<Seq<char>>,
    behind: Seq<Seq<char>>,
) -> Option<OpView> {
    if rest.len() > 0 && rest[0] == "proxy"@ {
        Some(OpView::Proxy(behind))
    } else if rest.len() == 1 && rest[0] == "exec"@ {
        if method == "POST"@ {
            Some(OpView::Exec)
        } else {
            None
        }
    } else if rest.len() == 1 && rest[0] == "processes"@ {
        if method == "POST"@ {
            Some(OpView::ProcessStart)
        } else if method == "GET"@ {
            Some(OpView::ProcessList)
        } else {
            None
        }
    } else if rest.len() == 2 && rest[0] == "processes"@ {
        if method == "DELETE"@ {
            Some(OpView::ProcessDelete(rest[1]))
        } else {
            None
        }
    } else if rest.len() == 2 && rest[0] == "files"@ {
        file_op(method, rest[1])
    } else {
        None
    }
}

/// What a method and a path ask for. `segments` are those of the path without the slashes
/// at its ends, and `whole` those with the slashes at its end.
pub open spec fn route_of(
    method: Seq<char>,
    segments: Seq<Seq<char>>,
    whole: Seq<Seq<char>>,
) -> RouteView {
    if segments.len() == 0 || segments[0] != "v1"@ {
        RouteView::Unknown
    } else if !auth::host_path(segments) {
        match op_of(method, segments.skip(1), tail(whole, 2)) {
            Some(op) => RouteView::Op(None, op),
            None => RouteView::Unknown,
        }
    } else if segments.len() == 2 {
        if method == "POST"@ {
            RouteView::Create
        } else if method == "GET"@ {
            RouteView::ListSandboxes
        } else if method == "DELETE"@ {
            RouteView::DeleteAll
        } else {
            RouteView::Unknown
        }
    } else if segments.len() == 3 {
        if method == "DELETE"@ {
            RouteView::DeleteSandbox(segments[2])
        } else {
            RouteView::Unknown
        }
    } else if segments.len() == 4 && segments[3] == "token"@ {
        if method == "GET"@ {
            RouteView::Token(segments[2])
        } else {
            RouteView::Unknown
        }
    } else {
        match op_of(method, segments.skip(3), tail(whole, 4)) {
            Some(op) => RouteView::Op(Some(segments[2]), op),
            None => RouteView::Unknown,
        }
    }
}

fn read_file_op<'a>(method: &str, name: &str) -> (r: Option<Op<'a>>)
    ensures
        match r {
            Some(op) => file_op(method@, name@) == Some(op@),
            None => file_op(method@, name@) is None,
        },
{
    if str_eq(method, "GET") && str_eq(name, "read") {
        Some(Op::FileRead)
    } else if str_eq(method, "PUT") && str_eq(name, "write") {
        Some(Op::FileWrite)
    } else if str_eq(method, "GET") && str_eq(name, "list") {
        Some(Op::FileList)
    } else if str_eq(method, "GET") && str_eq(name, "stat") {
        Some(Op::FileStat)
    } else if str_eq(method, "DELETE") && str_eq(name, "delete") {
        Some(Op::FileDelete)
    } else if str_eq(method, "POST") && str_eq(name, "mkdir") {
        Some(Op::FileMkdir)
    } else {
        None
    }
}

/// Reads what a method and the path from segment `from` on ask for.
fn read_op<'a>(method: &str, segments: &[&'a str], whole: &[&'a str], from: usize) -> (r: Option<
    Op<'a>,
>)
    requires
        from <= segments@.len(),
    ensures
        match r {
            Some(op) => op_of(
                method@,
                text::texts(segments@).skip(from as int),
                tail(text::texts(whole@), from + 1),
            ) == Some(op@),
            None => op_of(
                method@,
                text::texts(segments@).skip(from as int),
                tail(text::texts(whole@), from + 1),
            ) is None,
        },
{
    let ghost rest = text::texts(segments@).skip(from as int);
    let n: usize = segments.len() - from;
    if n == 0 {
        return None;
    }
    let first = segments[from];
    assert(rest[0] == first@);
    if str_eq(first, "proxy") {
        let mut behind: Vec<&'a str> = Vec::new();
        let mut i: usize = from + 1;
        while i < whole.len()
            invariant
                from + 1 <= i,
                i <= whole@.len() || i == from + 1,
                behind@.len() == i - from - 1,
                forall|j: int| 0 <= j < i - from - 1 ==> behind@[j] == whole@[from + 1 + j],
            decreases whole@.len() - i,
        {
            behind.push(whole[i]);
            i += 1;
        }
        assert(text::texts(behind@) =~= tail(text::texts(whole@), from + 1));
        return Some(Op::Proxy(behind));
    }
    if n == 1 {
        if str_eq(first, "exec") {
            if str_eq(method, "POST") {
                Some(Op::Exec)
            } else {
                None
            }
        } else if str_eq(first, "processes") {
            if str_eq(method, "POST") {
                Some(Op::ProcessStart)
            } else if str_eq(method, "GET") {
                Some(Op::ProcessList)
            } else {
                None
            }
        } else {
            None
        }
    } else if n == 2 {
        let second = segments[from + 1];
        assert(rest[1] == second@);
        if str_eq(first, "processes") {
            if str_eq(method, "DELETE") {
                Some(Op::ProcessDelete(second))
            } else {
                None
            }
        } else if str_eq(first, "files") {
            read_file_op(method, second)
        } else {
            None
        }
    } else {
        None
    }
}

/// Reads what a method and a path ask for. `whole` are the segments of the path with the
/// empty ones that slashes at its end make.
pub fn read_route<'a>(method: &str, segments: &[&'a str], whole: &[&'a str]) -> (r: Route<'a>)
    ensures
        r@ == route_of(method@, text::texts(segments@), text::texts(whole@)),
{
    let ghost all = text::texts(segments@);
    let n: usize = segments.len();
    if n == 0 || !str_eq(segments[0], "v1") {
        return Route::Unknown;
    }
    if !is_host_path(segments) {
        return match read_op(method, segments, whole, 1) {
            Some(op) => Route::Op(None, op),
            None => Route::Unknown,
        };
    }
    if n == 2 {
        if str_eq(method, "POST") {
            Route::Create
        } else if str_eq(method, "GET") {
            Route::ListSandboxes
        } else if str_eq(method, "DELETE") {
            Route::DeleteAll
        } else {
            Route::Unknown
        }
    } else if n == 3 {
        assert(all[2] == segments@[2]@);
        if str_eq(method, "DELETE") {
            Route::DeleteSandbox(segments[2])
        } else {
            Route::Unknown
        }
    } else if n == 4 && str_eq(segments[3], "token") {
        assert(all[2] == segments@[2]@);
        assert(all[3] == segments@[3]@);
        if str_eq(method, "GET") {
            Route::Token(segments[2])
        } else {
            Route::Unknown
        }
    } else {
        assert(all[2] == segments@[2]@);
        assert(all[3] == segments@[3]@);
        match read_op(method, segments, whole, 3) {
            Some(op) => Route::Op(Some(segments[2]), op),
            None => Route::Unknown,
        }
    }
}

/// A route that acts with the server's own rights is never reached through the paths of a
/// host, and one that acts on a sandbox or on the pool never through the others.
pub proof fn law_routes_follow_the_surface(
    method: Seq<char>,
    segments: Seq<Seq<char>>,
    whole: Seq<Seq<char>>,
)
    ensures
        match route_of(method, segments, whole) {
            RouteView::Op(None, _) => !auth::host_path(segments),
            RouteView::Op(Some(id), _) => auth::host_path(segments) && segments.len() > 3 && id
                == segments[2],
            RouteView::Unknown => true,
            _ => auth::host_path(segments),
        },
{
}

/// What a sandbox's own token can ask for concerns that sandbox: every route that needs
/// the token of a sandbox is about the sandbox that the path names.
pub proof fn law_scoped_routes_are_about_their_sandbox(
    method: Seq<char>,
    segments: Seq<Seq<char>>,
    whole: Seq<Seq<char>>,
    id: Seq<char>,
)
    requires
        auth::route_auth_of(segments) == auth::RouteAuthView::Sandbox(id),
    ensures
        match route_of(method, segments, whole) {
            RouteView::Op(scope, _) => scope == Some(id),
            RouteView::DeleteSandbox(other) => other == id,
            RouteView::Unknown => true,
            _ => false,
        },
{
}

// ---------------------------------------------------------------------------
// The table of routes
// ---------------------------------------------------------------------------

proof fn lemma_words_differ()
    ensures
        "proxy"@ != "exec"@,
        "proxy"@ != "processes"@,
        "proxy"@ != "files"@,
        "exec"@ != "processes"@,
        "exec"@ != "files"@,
        "processes"@ != "files"@,
        "read"@ != "write"@,
        "read"@ != "list"@,
        "read"@ != "stat"@,
        "read"@ != "delete"@,
        "read"@ != "mkdir"@,
        "write"@ != "list"@,
        "write"@ != "stat"@,
        "write"@ != "delete"@,
        "write"@ != "mkdir"@,
        "list"@ != "stat"@,
        "list"@ != "delete"@,
        "list"@ != "mkdir"@,
        "stat"@ != "delete"@,
        "stat"@ != "mkdir"@,
        "delete"@ != "mkdir"@,
        "GET"@ != "POST"@,
        "GET"@ != "PUT"@,
        "GET"@ != "DELETE"@,
        "POST"@ != "PUT"@,
        "POST"@ != "DELETE"@,
        "PUT"@ != "DELETE"@,
        "sandboxes"@ != "proxy"@,
        "sandboxes"@ != "exec"@,
        "sandboxes"@ != "processes"@,
        "sandboxes"@ != "files"@,
        "token"@ != "proxy"@,
        "token"@ != "exec"@,
        "token"@ != "processes"@,
        "token"@ != "files"@,
{
    reveal_strlit("proxy");
    reveal_strlit("exec");
    reveal_strlit("processes");
    reveal_strlit("files");
    reveal_strlit("read");
    reveal_strlit("write");
    reveal_strlit("list");
    reveal_strlit("stat");
    reveal_strlit("delete");
    reveal_strlit("mkdir");
    reveal_strlit("GET");
    reveal_strlit("PUT");
    reveal_strlit("POST");
    reveal_strlit("DELETE");
    reveal_strlit("sandboxes");
    reveal_strlit("token");
    reveal_strlit("v1");
    assert("proxy"@.len() == 5);
    assert("exec"@.len() == 4);
    assert("processes"@.len() == 9);
    assert("files"@.len() == 5);
    assert("read"@.len() == 4);
    assert("write"@.len() == 5);
    assert("list"@.len() == 4);
    assert("stat"@.len() == 4);
    assert("delete"@.len() == 6);
    assert("mkdir"@.len() == 5);
    assert("GET"@.len() == 3);
    assert("PUT"@.len() == 3);
    assert("POST"@.len() == 4);
    assert("DELETE"@.len() == 6);
    assert("sandboxes"@.len() == 9);
    assert("token"@.len() == 5);
    assert("v1"@.len() == 2);
    assert("proxy"@[0] != "files"@[0]);
    assert("proxy"@[0] != "write"@[0]);
    assert("proxy"@[0] != "mkdir"@[0]);
    assert("proxy"@[0] != "token"@[0]);
    assert("exec"@[0] != "read"@[0]);
    assert("exec"@[0] != "list"@[0]);
    assert("exec"@[0] != "stat"@[0]);
    assert("exec"@[0] != "POST"@[0]);
    assert("processes"@[0] != "sandboxes"@[0]);
    assert("files"@[0] != "write"@[0]);
    assert("files"@[0] != "mkdir"@[0]);
    assert("files"@[0] != "token"@[0]);
    assert("read"@[0] != "list"@[0]);
    assert("read"@[0] != "stat"@[0]);
    assert("read"@[0] != "POST"@[0]);
    assert("write"@[0] != "mkdir"@[0]);
    assert("write"@[0] != "token"@[0]);
    assert("list"@[0] != "stat"@[0]);
    assert("list"@[0] != "POST"@[0]);
    assert("stat"@[0] != "POST"@[0]);
    assert("delete"@[0] != "DELETE"@[0]);
    assert("mkdir"@[0] != "token"@[0]);
    assert("GET"@[0] != "PUT"@[0]);
}

/// Each operation has one method and one path, and what has another asks for nothing: the
/// whole table of what can be asked of a sandbox.
pub proof fn law_table_of_operations(
    method: Seq<char>,
    rest: Seq<Seq<char>>,
    behind: Seq<Seq<char>>,
    id: Seq<char>,
    other: Seq<Seq<char>>,
)
    ensures
        op_of(method, rest, behind) == Some(OpView::Exec) <==> method == "POST"@ && rest.len() == 1
            && rest[0] == "exec"@,
        op_of(method, rest, behind) == Some(OpView::ProcessStart) <==> method == "POST"@ && rest.len()
            == 1 && rest[0] == "processes"@,
        op_of(method, rest, behind) == Some(OpView::ProcessList) <==> method == "GET"@ && rest.len() == 1
            && rest[0] == "processes"@,
        op_of(method, rest, behind) == Some(OpView::ProcessDelete(id)) <==> method == "DELETE"@
            && rest.len() == 2 && rest[0] == "processes"@ && rest[1] == id,
        op_of(method, rest, behind) == Some(OpView::FileRead) <==> method == "GET"@
            && rest.len() == 2 && rest[0] == "files"@ && rest[1] == "read"@,
        op_of(method, rest, behind) == Some(OpView::FileWrite) <==> method == "PUT"@
            && rest.len() == 2 && rest[0] == "files"@ && rest[1] == "write"@,
        op_of(method, rest, behind) == Some(OpView::FileList) <==> method == "GET"@
            && rest.len() == 2 && rest[0] == "files"@ && rest[1] == "list"@,
        op_of(method, rest, behind) == Some(OpView::FileStat) <==> method == "GET"@
            && rest.len() == 2 && rest[0] == "files"@ && rest[1] == "stat"@,
        op_of(method, rest, behind) == Some(OpView::FileDelete) <==> method == "DELETE"@
            && rest.len() == 2 && rest[0] == "files"@ && rest[1] == "delete"@,
        op_of(method, rest, behind) == Some(OpView::FileMkdir) <==> method == "POST"@
            && rest.len() == 2 && rest[0] == "files"@ && rest[1] == "mkdir"@,
        op_of(method, rest, behind) == Some(OpView::Proxy(other)) <==> rest.len() > 0 && rest[0]
            == "proxy"@ && other == behind,
{
    lemma_words_differ();
}

/// What can be asked of the pool, by method and path.
pub proof fn law_table_of_the_pool(
    method: Seq<char>,
    segments: Seq<Seq<char>>,
    whole: Seq<Seq<char>>,
    id: Seq<char>,
)
    ensures
        route_of(method, segments, whole) == RouteView::Create <==> method == "POST"@ && segments.len()
            == 2 && segments[0] == "v1"@ && segments[1] == "sandboxes"@,
        route_of(method, segments, whole) == RouteView::ListSandboxes <==> method == "GET"@
            && segments.len() == 2 && segments[0] == "v1"@ && segments[1] == "sandboxes"@,
        route_of(method, segments, whole) == RouteView::DeleteAll <==> method == "DELETE"@
            && segments.len() == 2 && segments[0] == "v1"@ && segments[1] == "sandboxes"@,
        route_of(method, segments, whole) == RouteView::DeleteSandbox(id) <==> method == "DELETE"@
            && segments.len() == 3 && segments[0] == "v1"@ && segments[1] == "sandboxes"@ && segments[2]
            == id,
        route_of(method, segments, whole) == RouteView::Token(id) <==> method == "GET"@
            && segments.len() == 4 && segments[0] == "v1"@ && segments[1] == "sandboxes"@ && segments[2]
            == id && segments[3] == "token"@,
        segments.len() == 0 || segments[0] != "v1"@ ==> route_of(method, segments, whole)
            == RouteView::Unknown,
{
    lemma_words_differ();
}

/// The routes of a sandbox are those of a dedicated server behind another prefix: what a path
/// asks of the job behind `/v1`, it asks of the sandbox behind `/v1/sandboxes/` and its id.
pub proof fn law_sandbox_routes_mirror_the_dedicated_ones(
    method: Seq<char>,
    rest: Seq<Seq<char>>,
    whole: Seq<Seq<char>>,
    id: Seq<char>,
    op: OpView,
)
    requires
        rest.len() > 0,
        whole.len() > 0,
        rest[0] != "sandboxes"@,
        rest != seq!["token"@],
    ensures
        route_of(method, seq!["v1"@] + rest, seq!["v1"@] + whole) == RouteView::Op(None, op)
            <==> op_of(method, rest, whole.skip(1)) == Some(op),
        route_of(
            method,
            seq!["v1"@, "sandboxes"@, id] + rest,
            seq!["v1"@, "sandboxes"@, id] + whole,
        ) == RouteView::Op(Some(id), op) <==> op_of(method, rest, whole.skip(1)) == Some(op),
{
    let a = seq!["v1"@] + rest;
    let b = seq!["v1"@, "sandboxes"@, id] + rest;
    assert(a[0] == "v1"@ && a[1] == rest[0]);
    assert(b[0] == "v1"@ && b[1] == "sandboxes"@ && b[2] == id && b[3] == rest[0]);
    assert(a.skip(1) =~= rest);
    assert(b.skip(3) =~= rest);
    assert(tail(seq!["v1"@] + whole, 2) =~= whole.skip(1));
    assert(tail(seq!["v1"@, "sandboxes"@, id] + whole, 4) =~= whole.skip(1));
    if b.len() == 4 && b[3] == "token"@ {
        assert(rest =~= seq!["token"@]);
    }
}

/// Operations and routes denote what they name.
pub proof fn law_routes_denote_what_they_name<'a>(id: &'a str, rest: Vec<&'a str>, op: Op<'a>)
    ensures
        Op::ProcessDelete(id)@ == OpView::ProcessDelete(id@),
        Op::Proxy(rest)@ == OpView::Proxy(text::texts(rest@)),
        Op::Exec@ == OpView::Exec,
        Op::ProcessStart@ == OpView::ProcessStart,
        Op::ProcessList@ == OpView::ProcessList,
        Op::FileRead@ == OpView::FileRead,
        Op::FileWrite@ == OpView::FileWrite,
        Op::FileList@ == OpView::FileList,
        Op::FileStat@ == OpView::FileStat,
        Op::FileDelete@ == OpView::FileDelete,
        Op::FileMkdir@ == OpView::FileMkdir,
        Route::Op(Some(id), op)@ == RouteView::Op(Some(id@), op@),
        Route::Op(None, op)@ == RouteView::Op(None, op@),
        Route::Create@ == RouteView::Create,
        Route::ListSandboxes@ == RouteView::ListSandboxes,
        Route::DeleteAll@ == RouteView::DeleteAll,
        Route::Token(id)@ == RouteView::Token(id@),
        Route::DeleteSandbox(id)@ == RouteView::DeleteSandbox(id@),
        Route::Unknown@ == RouteView::Unknown,
{
}

} // verus!
