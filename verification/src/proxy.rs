//! The port proxy: reaching a server that runs inside a sandbox.
//!
//! A dedicated server is reached on a local port, a sandbox on a socket in its home. The
//! request head is replayed to it, and from then on bytes go both ways unchanged.

use vstd::prelude::*;

use crate::fsutil;
use crate::fsutil::{FsStep, OpenMode, ScopedRoot};
use crate::http;
use crate::http::Request;
use crate::number;
use crate::number::{parse_unsigned, write_decimal};
use crate::response;
use crate::response::{error_reply, Reply};
use crate::sandboxes::PROXY_SUBDIR;
use crate::strmap;
use crate::text;
use crate::text::{chars_of, join_strs, str_eq};

verus! {

/// The port and the path that the rest of a proxy path names. The port is a number from 1
/// on, so nothing of the request ends up in a path of the file system. The path is all that
/// stands behind the port: an empty segment at its end is a slash at its end.
pub open spec fn target_of(segments: Seq<Seq<char>>) -> Option<(u16, Seq<char>)> {
    if segments.len() == 0 {
        None
    } else {
        match number::read_unsigned(segments[0], 10, u16::MAX as nat) {
            Some(port) => if port == 0 {
                None
            } else {
                Some(
                    (
                        port as u16,
                        if segments.len() == 1 {
                            "/"@
                        } else {
                            "/"@ + text::join(segments.skip(1), "/"@)
                        },
                    ),
                )
            },
            None => None,
        }
    }
}

/// Splits the rest of a proxy path into the port and the path behind it.
pub fn split_target(segments: &[&str]) -> (r: Option<(u16, String)>)
    ensures
        match r {
            Some((port, path)) => target_of(text::texts(segments@)) == Some((port, path@)),
            None => target_of(text::texts(segments@)) is None,
        },
{
    let ghost all = text::texts(segments@);
    let n: usize = segments.len();
    if n == 0 {
        return None;
    }
    assert(all[0] == segments@[0]@);
    let digits = chars_of(segments[0]);
    let port: u64 = match parse_unsigned(digits.as_slice(), 10, u16::MAX as u64) {
        Some(p) => p,
        None => return None,
    };
    if port == 0 {
        return None;
    }
    assert(port <= u16::MAX);
    let mut path: String = "/".to_owned();
    if n > 1 {
        let mut rest: Vec<&str> = Vec::new();
        let mut i: usize = 1;
        while i < n
            invariant
                1 <= i <= n,
                n == segments@.len(),
                rest@.len() == i - 1,
                forall|j: int| 0 <= j < i - 1 ==> rest@[j] == segments@[j + 1],
            decreases n - i,
        {
            rest.push(segments[i]);
            i += 1;
        }
        assert(text::texts(rest@) =~= all.skip(1));
        path.append(join_strs(rest.as_slice(), "/").as_str());
    }
    Some((port as u16, path))
}

/// The name of the socket of a port.
pub open spec fn socket_name(port: u16) -> Seq<char> {
    number::decimal(port as nat) + ".sock"@
}

/// The path of the socket of a port in the home of a sandbox.
pub open spec fn socket_path(port: u16) -> Seq<char> {
    PROXY_SUBDIR@ + "/"@ + socket_name(port)
}

/// The steps from the home of a sandbox to the socket of a port. None of them follows a
/// link, and the socket itself is only looked at.
pub open spec fn socket_steps(port: u16) -> Seq<fsutil::StepView> {
    seq![
        fsutil::StepView::Open(".sbx"@, OpenMode::Directory),
        fsutil::StepView::Open("proxy"@, OpenMode::Directory),
        fsutil::StepView::Open(socket_name(port), OpenMode::PathOnly),
    ]
}

proof fn lemma_socket_steps(port: u16)
    ensures
        fsutil::names_of(socket_path(port)).len() > 0,
        fsutil::opening(socket_path(port), false, OpenMode::PathOnly) == socket_steps(port),
{
    reveal_strlit(".sbx/proxy");
    reveal_strlit(".sbx");
    reveal_strlit("proxy");
    reveal_strlit("/");
    reveal_strlit(".");
    reveal_strlit("..");
    let name = socket_name(port);
    let parts = seq![".sbx"@, "proxy"@, name];
    law_socket_name_is_plain(port);
    assert(PROXY_SUBDIR@ =~= ".sbx"@ + seq!['/'] + "proxy"@);
    assert forall|i: int| 0 <= i < parts.len() implies fsutil::plain(#[trigger] parts[i]) by {
        if i < 2 {
            assert(!parts[i].contains('/'));
        }
    }
    let tail = parts.skip(1);
    assert(tail =~= seq!["proxy"@, name]);
    assert(tail.skip(1) =~= seq![name]);
    assert(text::join(tail.skip(1), seq!['/']) == name);
    assert(text::join(tail, seq!['/']) =~= "proxy"@ + seq!['/'] + name);
    assert(text::join(parts, seq!['/']) =~= ".sbx"@ + seq!['/'] + ("proxy"@ + seq!['/'] + name));
    assert(socket_path(port) =~= text::join(parts, seq!['/']));
    fsutil::lemma_pieces_of_joined(parts);
    let front = parts.drop_last();
    assert(front =~= seq![".sbx"@, "proxy"@]);
    assert(front.drop_last() =~= seq![".sbx"@]);
    assert(front.drop_last().drop_last() =~= Seq::<Seq<char>>::empty());
    assert(fsutil::descend(front.drop_last().drop_last(), false) =~= Seq::<fsutil::StepView>::empty());
    assert(fsutil::descend(front.drop_last(), false) =~= seq![
        fsutil::StepView::Open(".sbx"@, OpenMode::Directory),
    ]);
    assert(fsutil::descend(front, false) =~= seq![
        fsutil::StepView::Open(".sbx"@, OpenMode::Directory),
        fsutil::StepView::Open("proxy"@, OpenMode::Directory),
    ]);
    assert(fsutil::opening(socket_path(port), false, OpenMode::PathOnly) =~= socket_steps(port));
}

/// The steps from the home of a sandbox to the socket of a port.
pub fn open_sandbox_socket(root: &ScopedRoot, port: u16) -> (r: Vec<FsStep>)
    ensures
        fsutil::step_views(r@) == socket_steps(port),
{
    let mut path: String = PROXY_SUBDIR.to_owned();
    path.append("/");
    let mut name: String = write_decimal(port as u64);
    name.append(".sock");
    path.append(name.as_str());
    proof {
        lemma_socket_steps(port);
    }
    root.metadata(path.as_str())
}

/// Why a socket is not connected to.
#[derive(Clone, Copy, Debug, PartialEq, Eq, Structural)]
pub enum SocketRefusal {
    Symlink,
    NotASocket,
    NotOwned,
}

impl SocketRefusal {
    /// The message of the refusal.
    pub open spec fn text(self) -> Seq<char> {
        match self {
            SocketRefusal::Symlink => "socket path is a symlink"@,
            SocketRefusal::NotASocket => "not a unix socket"@,
            SocketRefusal::NotOwned => "socket is not owned by this sandbox"@,
        }
    }

    /// The message of the refusal.
    pub fn message(self) -> (r: &'static str)
        ensures
            r@ == self.text(),
    {
        match self {
            SocketRefusal::Symlink => "socket path is a symlink",
            SocketRefusal::NotASocket => "not a unix socket",
            SocketRefusal::NotOwned => "socket is not owned by this sandbox",
        }
    }
}

/// Whether what was found in the place of a socket may be connected to: it is a socket
/// and belongs to the sandbox.
pub fn vet_socket(is_symlink: bool, is_socket: bool, owner: u32, uid: u32) -> (r: Result<
    (),
    SocketRefusal,
>)
    ensures
        r == (if is_symlink {
            Err::<(), SocketRefusal>(SocketRefusal::Symlink)
        } else if !is_socket {
            Err::<(), SocketRefusal>(SocketRefusal::NotASocket)
        } else if owner != uid {
            Err::<(), SocketRefusal>(SocketRefusal::NotOwned)
        } else {
            Ok::<(), SocketRefusal>(())
        }),
{
    if is_symlink {
        Err(SocketRefusal::Symlink)
    } else if !is_socket {
        Err(SocketRefusal::NotASocket)
    } else if owner != uid {
        Err(SocketRefusal::NotOwned)
    } else {
        Ok(())
    }
}

/// Whether the process on the other end is one of the sandbox.
pub fn check_peer_uid(peer: u32, expected: u32) -> (r: Result<(), String>)
    ensures
        match r {
            Ok(_) => peer == expected,
            Err(m) => peer != expected && m@ == "peer runs as uid "@ + number::decimal(peer as nat)
                + ", expected the sandbox's uid "@ + number::decimal(expected as nat),
        },
{
    if peer == expected {
        return Ok(());
    }
    let mut m: String = "peer runs as uid ".to_owned();
    m.append(write_decimal(peer as u64).as_str());
    m.append(", expected the sandbox's uid ");
    m.append(write_decimal(expected as u64).as_str());
    Err(m)
}

/// Whether a header is a credential for this server, which is not passed on.
pub open spec fn is_credential(name: Seq<char>) -> bool {
    name == "x-sandbox-token"@ || name == "authorization"@
}

/// The headers that are passed on.
pub open spec fn forwarded(headers: Seq<(Seq<char>, Seq<char>)>) -> Seq<(Seq<char>, Seq<char>)>
    decreases headers.len(),
{
    if headers.len() == 0 {
        Seq::empty()
    } else if is_credential(headers.last().0) {
        forwarded(headers.drop_last())
    } else {
        forwarded(headers.drop_last()).push(headers.last())
    }
}

/// Headers as they stand in a head.
pub open spec fn header_lines(headers: Seq<(Seq<char>, Seq<char>)>) -> Seq<char>
    decreases headers.len(),
{
    if headers.len() == 0 {
        Seq::empty()
    } else {
        header_lines(headers.drop_last()) + headers.last().0 + ": "@ + headers.last().1 + "\r\n"@
    }
}

/// The head that is replayed to the server in the sandbox.
pub open spec fn replayed(request: http::RequestView, path: Seq<char>) -> Seq<char> {
    request.method + " "@ + (if request.raw_query.len() == 0 {
        path
    } else {
        path + "?"@ + request.raw_query
    }) + " HTTP/1.1\r\n"@ + header_lines(forwarded(request.headers)) + "\r\n"@
}

/// Makes the head that is replayed to the server in the sandbox: the request line without
/// the prefix of the proxy, and every header but the credentials.
pub fn build_head(request: &Request, forward_path: &str) -> (r: Vec<u8>)
    ensures
        r@ == vstd::utf8::encode_utf8(replayed(request@, forward_path@)),
{
    let mut target: String = forward_path.to_owned();
    if !request.raw_query.as_str().is_empty() {
        target.append("?");
        target.append(request.raw_query.as_str());
    }
    let mut head: String = request.method.clone();
    head.append(" ");
    head.append(target.as_str());
    head.append(" HTTP/1.1\r\n");
    let ghost first = head@;
    let ghost all = request@.headers;
    let mut i: usize = 0;
    assert(all.take(0) =~= Seq::<(Seq<char>, Seq<char>)>::empty());
    assert(first + header_lines(forwarded(all.take(0))) =~= first);
    while i < request.headers.entries.len()
        invariant
            i <= request.headers.entries@.len(),
            all == request@.headers,
            head@ == first + header_lines(forwarded(all.take(i as int))),
        decreases request.headers.entries@.len() - i,
    {
        let entry = &request.headers.entries[i];
        proof {
            assert(all.take(i + 1).drop_last() =~= all.take(i as int));
            assert(all.take(i + 1).last() == (entry.0@, entry.1@));
        }
        if !str_eq(entry.0.as_str(), "x-sandbox-token") && !str_eq(
            entry.0.as_str(),
            "authorization",
        ) {
            let ghost before = head@;
            let ghost kept = forwarded(all.take(i as int));
            head.append(entry.0.as_str());
            head.append(": ");
            head.append(entry.1.as_str());
            head.append("\r\n");
            proof {
                let more = kept.push((entry.0@, entry.1@));
                assert(more.drop_last() =~= kept);
                assert(head@ =~= first + header_lines(more));
            }
        }
        i += 1;
    }
    assert(all.take(all.len() as int) =~= all);
    head.append("\r\n");
    let mut out: Vec<u8> = Vec::new();
    out.extend_from_slice(head.as_str().as_bytes());
    assert(out@ =~= vstd::utf8::encode_utf8(head@));
    out
}

/// Where a proxy request goes, or the reply when it names no port. `segments` is the rest of
/// the request path behind `proxy`, with the empty segment that a slash at its end makes.
pub fn handle_proxy(segments: &[&str]) -> (r: Result<(u16, String), Reply>)
    ensures
        match r {
            Ok((port, path)) => target_of(text::texts(segments@)) == Some((port, path@)),
            Err(reply) => target_of(text::texts(segments@)) is None && reply@
                == response::error_view(
                404,
                "proxy target must be /proxy/<port>/<path>, with port in 1-65535"@,
            ),
        },
{
    match split_target(segments) {
        Some(target) => Ok(target),
        None => Err(
            error_reply(404, "proxy target must be /proxy/<port>/<path>, with port in 1-65535"),
        ),
    }
}

/// The reply when the server in the sandbox cannot be reached.
pub fn unreachable_reply(port: u16, error: &str) -> (r: Reply)
    ensures
        r@ == response::error_view(
            502,
            "cannot reach port "@ + number::decimal(port as nat) + " in sandbox: "@ + error@,
        ),
{
    let mut m: String = "cannot reach port ".to_owned();
    m.append(write_decimal(port as u64).as_str());
    m.append(" in sandbox: ");
    m.append(error);
    error_reply(502, m.as_str())
}

// ---------------------------------------------------------------------------
// Laws
// ---------------------------------------------------------------------------

/// The credentials for this server never reach the server in the sandbox, and every
/// other header does.
pub proof fn law_credentials_are_not_forwarded(
    headers: Seq<(Seq<char>, Seq<char>)>,
    header: (Seq<char>, Seq<char>),
)
    ensures
        forwarded(headers).contains(header) <==> headers.contains(header) && !is_credential(header.0),
    decreases headers.len(),
{
    if headers.len() > 0 {
        let front = headers.drop_last();
        law_credentials_are_not_forwarded(front, header);
        let f = forwarded(front);
        let g = forwarded(headers);
        assert(headers[headers.len() - 1] == headers.last());
        if headers.contains(header) {
            let i = choose|i: int| 0 <= i < headers.len() && headers[i] == header;
            if i < front.len() {
                assert(front[i] == header);
            } else if !is_credential(header.0) {
                assert(g[g.len() - 1] == header);
            }
        }
        if front.contains(header) {
            let i = choose|i: int| 0 <= i < front.len() && front[i] == header;
            assert(headers[i] == header);
        }
        if f.contains(header) {
            let i = choose|i: int| 0 <= i < f.len() && f[i] == header;
            assert(g[i] == header);
        }
        if g.contains(header) {
            let i = choose|i: int| 0 <= i < g.len() && g[i] == header;
            if i < f.len() {
                assert(f[i] == header);
            }
        }
    }
}

/// The name of a socket is a plain name, whatever the port: it names an entry of the
/// directory of sockets and nothing else.
pub proof fn law_socket_name_is_plain(port: u16)
    ensures
        fsutil::plain(socket_name(port)),
{
    let digits = number::decimal(port as nat);
    number::law_numeral_reads_back(port as nat, 10, u64::MAX as nat);
    reveal_strlit(".sock");
    reveal_strlit(".");
    reveal_strlit("..");
    let name = socket_name(port);
    assert(name.len() == digits.len() + 5);
    if name.contains('/') {
        let i = choose|i: int| 0 <= i < name.len() && name[i] == '/';
        if i < digits.len() {
            assert(number::digit_worth(digits[i]) < 10);
            assert(digits[i] == '/');
        } else {
            assert(name[i] == ".sock"@[i - digits.len()]);
        }
    }
}

/// A proxy request names a port between 1 and 65535, and a path that begins with a slash.
pub proof fn law_proxy_port_is_in_range(segments: Seq<Seq<char>>)
    ensures
        target_of(segments) matches Some((port, path)) ==> 1 <= port && path.len() > 0 && path[0]
            == '/',
{
    reveal_strlit("/");
}

/// A path that can stand in a request line.
pub open spec fn is_request_path(p: Seq<char>) -> bool {
    &&& vstd::utf8::is_ascii_chars(p)
    &&& p.len() > 0
    &&& p[0] == '/'
    &&& !p.contains(' ')
    &&& !p.contains('?')
    &&& !p.contains('\r')
    &&& !p.contains('\n')
}

/// The head that is replayed reads back as the request that came, with the new path, and
/// without the credentials: nothing else is lost, changed or added.
pub proof fn law_replayed_head_reads_back(head: Seq<u8>, p: Seq<char>)
    requires
        http::request_of(head) is Ok,
        is_request_path(p),
    ensures
        ({
            let r = http::request_of(head)->Ok_0;
            http::request_of(vstd::utf8::encode_utf8(replayed(r, p))) == Ok::<
                http::RequestView,
                http::HeadError,
            >(
                http::RequestView {
                    path: p,
                    headers: forwarded(r.headers),
                    keep_alive: http::stays_open(forwarded(r.headers), "HTTP/1.1"@),
                    ..r
                },
            )
        }),
{
    let r = http::request_of(head)->Ok_0;
    http::law_accepted_head(head);
    http::lemma_accepted_parts(head);
    let f = forwarded(r.headers);
    lemma_forwarded(r.headers);
    let whole = replayed(r, p);
    let target = target_text(r, p);
    let first = request_line(r.method, target);
    let lines = seq![first] + lines_of(f);
    let crlf = seq!['\r', '\n'];
    lemma_request_line(r, p);
    lemma_whole(r, p);
    lemma_lines_free(f);
    assert forall|i: int| 0 <= i < lines.len() implies !text::within(#[trigger] lines[i], crlf) by {
        if i > 0 {
            assert(lines[i] == lines_of(f)[i - 1]);
        }
    }
    lemma_trimmed(lines);
    text::lemma_split_pairs(lines, '\r', '\n');
    assert(http::head_lines(whole) == lines);
    assert(lines[0] == first);
    assert(lines.skip(1) =~= lines_of(f));
    lemma_headers_read_back(f);
    lemma_lookup_forwarded(r.headers, "content-length"@);
    lemma_lookup_forwarded(r.headers, "transfer-encoding"@);
    assert(!is_credential("content-length"@) && !is_credential("transfer-encoding"@)) by {
        reveal_strlit("content-length");
        reveal_strlit("transfer-encoding");
        reveal_strlit("x-sandbox-token");
        reveal_strlit("authorization");
        assert("content-length"@[0] == 'c');
        assert("transfer-encoding"@[0] == 't');
        assert("x-sandbox-token"@[0] == 'x');
        assert("authorization"@[0] == 'a');
    }
    assert(http::body_length(f) == http::body_length(r.headers));
    assert(text::upper(r.method) =~= r.method);
    lemma_target_parts(r, p);
    assert(http::request_of_text(whole) == Ok::<http::RequestView, http::HeadError>(
        http::RequestView {
            path: p,
            headers: f,
            keep_alive: http::stays_open(f, "HTTP/1.1"@),
            ..r
        },
    ));
    lemma_whole_ascii(r, p);
    vstd::utf8::is_ascii_chars_encode_utf8(whole);
    let bytes = vstd::utf8::encode_utf8(whole);
    assert forall|i: int| 0 <= i < bytes.len() implies #[trigger] bytes[i] < 0x80 && bytes[i] as char
        == whole[i] by {
        assert('\0' <= whole[i] && whole[i] <= '\u{7f}');
        assert(whole[i] as u8 == bytes[i]);
    }
    assert(http::latin(bytes) =~= whole);
}

/// The target of the request line that is replayed.
spec fn target_text(r: http::RequestView, p: Seq<char>) -> Seq<char> {
    if r.raw_query.len() == 0 {
        p
    } else {
        p + "?"@ + r.raw_query
    }
}

spec fn request_line(method: Seq<char>, target: Seq<char>) -> Seq<char> {
    method + seq![' '] + target + seq![' '] + "HTTP/1.1"@
}

spec fn line_of(header: (Seq<char>, Seq<char>)) -> Seq<char> {
    header.0 + seq![':'] + (seq![' '] + header.1)
}

spec fn lines_of(headers: Seq<(Seq<char>, Seq<char>)>) -> Seq<Seq<char>> {
    Seq::new(headers.len(), |i: int| line_of(headers[i]))
}

/// Whether what a request is made of can be written down and read back.
spec fn writable(r: http::RequestView, p: Seq<char>) -> bool {
    &&& is_request_path(p)
    &&& r.method.len() > 0
    &&& forall|i: int|
        0 <= i < r.method.len() ==> 'A' <= #[trigger] r.method[i] && r.method[i] <= 'Z'
    &&& vstd::utf8::is_ascii_chars(r.raw_query)
    &&& !r.raw_query.contains(' ')
    &&& !text::within(r.raw_query, seq!['\r', '\n'])
}

spec fn all_plain(headers: Seq<(Seq<char>, Seq<char>)>) -> bool {
    forall|i: int| 0 <= i < headers.len() ==> http::plain_header(#[trigger] headers[i])
}

proof fn lemma_forwarded(h: Seq<(Seq<char>, Seq<char>)>)
    requires
        all_plain(h),
        strmap::distinct_keys(h),
    ensures
        all_plain(forwarded(h)),
        strmap::distinct_keys(forwarded(h)),
        forwarded(h).len() <= h.len(),
        forall|i: int|
            0 <= i < forwarded(h).len() ==> h.contains(#[trigger] forwarded(h)[i]),
    decreases h.len(),
{
    if h.len() > 0 {
        let front = h.drop_last();
        assert forall|i: int| 0 <= i < front.len() implies http::plain_header(#[trigger] front[i]) by {
            assert(front[i] == h[i]);
        }
        assert forall|i: int, j: int| 0 <= i < j < front.len() implies (#[trigger] front[i]).0 != (
        #[trigger] front[j]).0 by {
            assert(h[i].0 != h[j].0);
        }
        lemma_forwarded(front);
        let a = forwarded(front);
        let b = forwarded(h);
        assert forall|i: int| 0 <= i < b.len() implies h.contains(#[trigger] b[i])
            && http::plain_header(b[i]) && (i < a.len() ==> b[i].0 != h.last().0) by {
            if i < a.len() {
                assert(b[i] == a[i]);
                assert(front.contains(a[i]));
                let k = choose|k: int| 0 <= k < front.len() && front[k] == a[i];
                assert(h[k] == b[i]);
                assert(h[k].0 != h[h.len() - 1].0);
            } else {
                assert(h[h.len() - 1] == b[i]);
            }
        }
        assert forall|i: int, j: int| 0 <= i < j < b.len() implies (#[trigger] b[i]).0 != (
        #[trigger] b[j]).0 by {
            assert(b[i] == a[i]);
            if j < a.len() {
                assert(b[j] == a[j]);
            }
        }
    }
}

proof fn lemma_lookup_push(
    h: Seq<(Seq<char>, Seq<char>)>,
    x: (Seq<char>, Seq<char>),
    key: Seq<char>,
)
    ensures
        strmap::lookup(h.push(x), key) == (match strmap::lookup(h, key) {
            Some(v) => Some(v),
            None => if x.0 == key {
                Some(x.1)
            } else {
                None
            },
        }),
{
    let g = h.push(x);
    strmap::lemma_position(h, key, 0);
    strmap::lemma_position(g, key, 0);
    let a = strmap::position_from(h, key, 0);
    let b = strmap::position_from(g, key, 0);
    if a < h.len() {
        assert(g[a] == h[a]);
        if b < a {
            assert(g[b] == h[b]);
        }
    } else {
        if b < h.len() {
            assert(g[b] == h[b]);
        }
        assert(g[h.len() as int] == x);
    }
}

/// A header that is no credential is found among those that are passed on as it was before.
proof fn lemma_lookup_forwarded(h: Seq<(Seq<char>, Seq<char>)>, key: Seq<char>)
    ensures
        !is_credential(key) ==> strmap::lookup(forwarded(h), key) == strmap::lookup(h, key),
    decreases h.len(),
{
    if h.len() > 0 {
        let front = h.drop_last();
        lemma_lookup_forwarded(front, key);
        lemma_lookup_push(front, h.last(), key);
        lemma_lookup_push(forwarded(front), h.last(), key);
        assert(front.push(h.last()) =~= h);
    }
}

proof fn lemma_request_line(r: http::RequestView, p: Seq<char>)
    requires
        writable(r, p),
    ensures
        ({
            let target = target_text(r, p);
            let first = request_line(r.method, target);
            &&& text::split(first, seq![' ']) == seq![r.method, target, "HTTP/1.1"@]
            &&& !text::within(first, seq!['\r', '\n'])
            &&& http::is_method(r.method)
            &&& first.len() >= 2
        }),
{
    reveal_strlit("HTTP/1.1");
    reveal_strlit("?");
    let target = target_text(r, p);
    assert(!target.contains(' ')) by {
        if target.contains(' ') {
            let i = choose|i: int| 0 <= i < target.len() && target[i] == ' ';
            if i < p.len() {
                assert(p[i] == ' ');
            } else if i > p.len() {
                assert(r.raw_query[i - p.len() - 1] == ' ');
            }
        }
    }
    assert(!text::within(target, seq!['\r', '\n'])) by {
        text::lemma_pair_free(target, '\r', '\n');
        text::lemma_pair_free(r.raw_query, '\r', '\n');
        assert forall|i: int| !text::pair_at(target, '\r', '\n', i) by {
            if text::pair_at(target, '\r', '\n', i) {
                if i < p.len() {
                    assert(target[i] == p[i]);
                    assert(p.contains(p[i]));
                } else if i > p.len() {
                    assert(text::pair_at(r.raw_query, '\r', '\n', i - p.len() - 1));
                }
            }
        }
    }
    assert(http::is_method(r.method)) by {
        assert forall|i: int| 0 <= i < r.method.len() implies http::is_letter(
            #[trigger] r.method[i],
        ) by {
            assert('A' <= r.method[i] && r.method[i] <= 'Z');
        }
    }
    http::lemma_first_line_parts(r.method, target, "HTTP/1.1"@);
    http::lemma_first_line_free(r.method, target, "HTTP/1.1"@);
}

proof fn lemma_target_parts(r: http::RequestView, p: Seq<char>)
    requires
        is_request_path(p),
    ensures
        http::target_parts(target_text(r, p)) == (p, r.raw_query),
{
    reveal_strlit("?");
    assert("?"@ =~= seq!['?']);
    if r.raw_query.len() == 0 {
        text::lemma_char_free(p, '?');
        assert(r.raw_query =~= Seq::<char>::empty());
    } else {
        text::lemma_split_once_first(p, '?', r.raw_query);
    }
}

/// The head that is replayed is its lines, each with its line end, and an empty line.
proof fn lemma_whole(r: http::RequestView, p: Seq<char>)
    ensures
        replayed(r, p) == text::join(
            seq![request_line(r.method, target_text(r, p))] + lines_of(forwarded(r.headers)),
            seq!['\r', '\n'],
        ) + seq!['\r', '\n', '\r', '\n'],
{
    reveal_strlit(" ");
    reveal_strlit("?");
    reveal_strlit("\r\n");
    reveal_strlit("HTTP/1.1");
    reveal_strlit(" HTTP/1.1\r\n");
    let crlf = seq!['\r', '\n'];
    let f = forwarded(r.headers);
    let target = target_text(r, p);
    let first = request_line(r.method, target);
    lemma_joined_lines(first, f);
    assert("\r\n"@ =~= crlf);
    assert(" "@ =~= seq![' ']);
    assert(" HTTP/1.1\r\n"@ =~= seq![' '] + "HTTP/1.1"@ + crlf);
    assert(r.method + " "@ + target + " HTTP/1.1\r\n"@ =~= first + crlf);
    assert(replayed(r, p) =~= first + crlf + header_lines(f) + crlf);
    let j = text::join(seq![first] + lines_of(f), crlf);
    assert(j + crlf + crlf =~= j + seq!['\r', '\n', '\r', '\n']);
}

proof fn lemma_joined_lines(first: Seq<char>, f: Seq<(Seq<char>, Seq<char>)>)
    ensures
        first + seq!['\r', '\n'] + header_lines(f) == text::join(
            seq![first] + lines_of(f),
            seq!['\r', '\n'],
        ) + seq!['\r', '\n'],
    decreases f.len(),
{
    reveal_strlit(": ");
    reveal_strlit("\r\n");
    let crlf = seq!['\r', '\n'];
    assert("\r\n"@ =~= crlf);
    if f.len() == 0 {
        assert(seq![first] + lines_of(f) =~= seq![first]);
        assert(first + crlf + header_lines(f) =~= first + crlf);
    } else {
        let front = f.drop_last();
        let x = f.last();
        lemma_joined_lines(first, front);
        let before = seq![first] + lines_of(front);
        assert(seq![first] + lines_of(f) =~= before.push(line_of(x)));
        text::lemma_join_push(before, line_of(x), crlf);
        assert(": "@ =~= seq![':'] + seq![' ']);
        assert(x.0 + ": "@ + x.1 =~= line_of(x));
        assert(first + crlf + header_lines(f) =~= first + crlf + header_lines(front) + line_of(x)
            + crlf);
    }
}

proof fn lemma_lines_free(f: Seq<(Seq<char>, Seq<char>)>)
    requires
        all_plain(f),
    ensures
        forall|i: int|
            0 <= i < lines_of(f).len() ==> !text::within(
                #[trigger] lines_of(f)[i],
                seq!['\r', '\n'],
            ) && lines_of(f)[i].len() >= 2,
{
    assert forall|i: int| 0 <= i < lines_of(f).len() implies !text::within(
        #[trigger] lines_of(f)[i],
        seq!['\r', '\n'],
    ) && lines_of(f)[i].len() >= 2 by {
        assert(http::plain_header(f[i]));
        lemma_line_free(f[i]);
    }
}

proof fn lemma_line_free(x: (Seq<char>, Seq<char>))
    requires
        http::plain_header(x),
    ensures
        !text::within(line_of(x), seq!['\r', '\n']),
        line_of(x).len() >= 2,
        header_line_reads_back(x),
{
    let line = line_of(x);
    let n = x.0.len() as int;
    text::lemma_pair_free(line, '\r', '\n');
    text::lemma_pair_free(x.1, '\r', '\n');
    assert forall|c: char| http::is_token_char(c) implies c != ' ' && c != '\t' && c != '\r' && c
        != ':' by {}
    assert forall|i: int| !text::pair_at(line, '\r', '\n', i) by {
        if text::pair_at(line, '\r', '\n', i) {
            if i < n {
                assert(http::is_token_char(x.0[i]));
                assert(line[i] == x.0[i]);
            } else if i >= n + 2 {
                assert(line[i] == x.1[i - n - 2]);
                assert(line[i + 1] == x.1[i - n - 1]);
                assert(text::pair_at(x.1, '\r', '\n', i - n - 2));
            }
        }
    }
    if x.0.contains(':') {
        let k = choose|k: int| 0 <= k < x.0.len() && x.0[k] == ':';
        assert(http::is_token_char(x.0[k]));
    }
    text::lemma_split_once_first(x.0, ':', seq![' '] + x.1);
    assert(http::is_token_char(x.0[0]));
    assert(http::is_token_char(x.0[n - 1]));
    assert(line[0] == x.0[0]);
    assert(http::blanks()[5] == ' ');
    assert(http::blanks().contains(' '));
    text::lemma_strip_bare(x.1, http::blanks());
}

/// Whether the line of a header reads back as the header.
spec fn header_line_reads_back(x: (Seq<char>, Seq<char>)) -> bool {
    http::header_of(line_of(x)) == Ok::<(Seq<char>, Seq<char>), http::HeadError>(x)
}

proof fn lemma_headers_read_back(f: Seq<(Seq<char>, Seq<char>)>)
    requires
        all_plain(f),
        strmap::distinct_keys(f),
        f.len() <= http::MAX_HEADERS,
    ensures
        http::headers_of(lines_of(f)) == Ok::<Seq<(Seq<char>, Seq<char>)>, http::HeadError>(f),
        http::filled(lines_of(f)) == f.len(),
    decreases f.len(),
{
    let lines = lines_of(f);
    if f.len() == 0 {
        assert(f =~= Seq::<(Seq<char>, Seq<char>)>::empty());
    } else {
        let front = f.drop_last();
        let x = f.last();
        assert forall|i: int| 0 <= i < front.len() implies http::plain_header(#[trigger] front[i]) by {
            assert(front[i] == f[i]);
        }
        assert forall|i: int, j: int| 0 <= i < j < front.len() implies (#[trigger] front[i]).0 != (
        #[trigger] front[j]).0 by {
            assert(f[i].0 != f[j].0);
        }
        lemma_headers_read_back(front);
        assert(lines.drop_last() =~= lines_of(front));
        assert(lines.last() == line_of(x));
        assert(x == f[f.len() - 1]);
        lemma_line_free(x);
        strmap::lemma_position(front, x.0, 0);
        let k = strmap::position_from(front, x.0, 0);
        if k < front.len() {
            assert(f[k].0 != f[f.len() - 1].0);
        }
        assert(strmap::lookup(front, x.0) is None);
        assert(front.push(x) =~= f);
    }
}

/// The empty line at the end of a head is what is trimmed off it, and nothing else.
pub proof fn lemma_trimmed(lines: Seq<Seq<char>>)
    requires
        lines.len() > 0,
        lines.last().len() >= 2,
        !text::within(lines.last(), seq!['\r', '\n']),
    ensures
        text::trim_end(
            text::join(lines, seq!['\r', '\n']) + seq!['\r', '\n', '\r', '\n'],
            seq!['\r', '\n', '\r', '\n'],
        ) == text::join(lines, seq!['\r', '\n']),
{
    let crlf = seq!['\r', '\n'];
    let pat = seq!['\r', '\n', '\r', '\n'];
    let j = text::join(lines, crlf);
    let whole = j + pat;
    let n = j.len() as int;
    assert(whole.subrange(n, n + 4) =~= pat);
    assert(whole.take(n) =~= j);
    let x = lines.last();
    let k = x.len() as int;
    if lines.len() == 1 {
        assert(j == x);
    } else {
        let front = lines.drop_last();
        assert(front.push(x) =~= lines);
        text::lemma_join_push(front, x, crlf);
    }
    assert(j.len() >= k);
    assert(j[n - 1] == x[k - 1] && j[n - 2] == x[k - 2]);
    if text::occurs_at(j, pat, n - 4) {
        let part = j.subrange(n - 4, n);
        assert(part[2] == '\r' && part[3] == '\n');
        text::lemma_pair_free(x, '\r', '\n');
        assert(text::pair_at(x, '\r', '\n', k - 2));
    }
    assert(pat.len() == 4);
    assert(whole.len() - pat.len() == n);
    assert(text::occurs_at(whole, pat, n));
    assert(text::trim_end(j, pat) == j);
    assert(text::trim_end(whole, pat) == text::trim_end(whole.take(n), pat));
}

proof fn lemma_ascii_join(a: Seq<char>, b: Seq<char>)
    requires
        vstd::utf8::is_ascii_chars(a),
        vstd::utf8::is_ascii_chars(b),
    ensures
        vstd::utf8::is_ascii_chars(a + b),
{
    vstd::utf8::is_ascii_chars_concat(a + b, a, b);
}

proof fn lemma_whole_ascii(r: http::RequestView, p: Seq<char>)
    requires
        writable(r, p),
        all_plain(forwarded(r.headers)),
    ensures
        vstd::utf8::is_ascii_chars(replayed(r, p)),
{
    reveal_strlit(" ");
    reveal_strlit("?");
    reveal_strlit("\r\n");
    reveal_strlit(" HTTP/1.1\r\n");
    let target = target_text(r, p);
    lemma_ascii_join(p, "?"@);
    lemma_ascii_join(p + "?"@, r.raw_query);
    assert(vstd::utf8::is_ascii_chars(r.method));
    lemma_ascii_join(r.method, " "@);
    lemma_ascii_join(r.method + " "@, target);
    lemma_ascii_join(r.method + " "@ + target, " HTTP/1.1\r\n"@);
    let f = forwarded(r.headers);
    lemma_header_lines_ascii(f);
    lemma_ascii_join(r.method + " "@ + target + " HTTP/1.1\r\n"@, header_lines(f));
    lemma_ascii_join(
        r.method + " "@ + target + " HTTP/1.1\r\n"@ + header_lines(f),
        "\r\n"@,
    );
}

proof fn lemma_header_lines_ascii(f: Seq<(Seq<char>, Seq<char>)>)
    requires
        all_plain(f),
    ensures
        vstd::utf8::is_ascii_chars(header_lines(f)),
    decreases f.len(),
{
    if f.len() > 0 {
        reveal_strlit(": ");
        reveal_strlit("\r\n");
        let front = f.drop_last();
        let x = f.last();
        assert forall|i: int| 0 <= i < front.len() implies http::plain_header(#[trigger] front[i]) by {
            assert(front[i] == f[i]);
        }
        lemma_header_lines_ascii(front);
        assert(x == f[f.len() - 1]);
        assert(vstd::utf8::is_ascii_chars(x.0)) by {
            assert forall|i: int| 0 <= i < x.0.len() implies '\0' <= #[trigger] x.0[i] && x.0[i]
                <= '\u{7f}' by {
                assert(http::is_token_char(x.0[i]));
            }
        }
        let before = header_lines(front);
        lemma_ascii_join(before, x.0);
        lemma_ascii_join(before + x.0, ": "@);
        lemma_ascii_join(before + x.0 + ": "@, x.1);
        lemma_ascii_join(before + x.0 + ": "@ + x.1, "\r\n"@);
    }
}

/// A proxy path names a port from 1 to 65535 and, behind it, a path that begins at the root:
/// what stands behind the port, segment by segment. Without a number, or with one out of that
/// range, it names nothing.
pub proof fn law_proxy_path_names_port_and_path(port: nat, rest: Seq<Seq<char>>, word: Seq<char>)
    ensures
        target_of(Seq::empty()) is None,
        1 <= port <= 65535 ==> target_of(seq![number::decimal(port)]) == Some(
            (port as u16, seq!['/']),
        ),
        1 <= port <= 65535 && rest.len() > 0 ==> target_of(seq![number::decimal(port)] + rest) == Some(
            (port as u16, seq!['/'] + text::join(rest, seq!['/'])),
        ),
        port == 0 || port > 65535 ==> target_of(seq![number::decimal(port)] + rest) is None,
        number::read_unsigned(word, 10, 65535) is None ==> target_of(seq![word] + rest) is None,
        number::read_unsigned(word, 10, 65535) == Some(port) && port >= 1 && rest.len() > 0
            ==> target_of(seq![word] + rest) == Some(
            (port as u16, seq!['/'] + text::join(rest, seq!['/'])),
        ),
        number::read_unsigned(word, 10, 65535) == Some(port) && port >= 1 ==> target_of(seq![word])
            == Some((port as u16, seq!['/'])),
{
    reveal_strlit("/");
    assert("/"@ =~= seq!['/']);
    number::law_numeral_reads_back(port, 10, port);
    let digits = number::decimal(port);
    assert(number::all_digits(digits, 10));
    assert(number::digit_worth(digits[0]) < 10);
    let all = seq![digits] + rest;
    assert(all[0] == digits);
    assert(all.skip(1) =~= rest);
    assert((seq![word] + rest)[0] == word);
    assert((seq![word] + rest).skip(1) =~= rest);
    assert(seq![word][0] == word);
    assert(seq![digits][0] == digits);
}

/// The socket of a port is looked for under the number of the port, in the directory for
/// sockets of the home, and only looked at.
pub proof fn law_socket_is_named_after_its_port(port: u16)
    ensures
        socket_name(port) == number::decimal(port as nat) + ".sock"@,
        socket_path(port) == ".sbx/proxy"@ + "/"@ + (number::decimal(port as nat) + ".sock"@),
        socket_steps(port).len() == 3,
        socket_steps(port)[0] == fsutil::StepView::Open(".sbx"@, OpenMode::Directory),
        socket_steps(port)[1] == fsutil::StepView::Open("proxy"@, OpenMode::Directory),
        socket_steps(port)[2] == fsutil::StepView::Open(
            number::decimal(port as nat) + ".sock"@,
            OpenMode::PathOnly,
        ),
        SocketRefusal::Symlink.text() == "socket path is a symlink"@,
        SocketRefusal::NotASocket.text() == "not a unix socket"@,
        SocketRefusal::NotOwned.text() == "socket is not owned by this sandbox"@,
{
}

/// The headers are passed on in their order, but for the two that hold credentials.
pub proof fn law_headers_are_forwarded_in_order(
    headers: Seq<(Seq<char>, Seq<char>)>,
    header: (Seq<char>, Seq<char>),
)
    ensures
        forwarded(Seq::empty()).len() == 0,
        header.0 == "x-sandbox-token"@ || header.0 == "authorization"@ ==> forwarded(
            headers.push(header),
        ) == forwarded(headers),
        header.0 != "x-sandbox-token"@ && header.0 != "authorization"@ ==> forwarded(
            headers.push(header),
        ) == forwarded(headers) + seq![header],
        is_credential(header.0) <==> header.0 == "x-sandbox-token"@ || header.0 == "authorization"@,
{
    assert(headers.push(header).drop_last() =~= headers);
    assert(headers.push(header).last() == header);
    assert(forwarded(headers).push(header) =~= forwarded(headers) + seq![header]);
}

/// The head that is replayed: the method, the path, with the query behind it where there is
/// one, and the version; a line for each header that is passed on; and an empty line.
pub proof fn law_replayed_head_is_its_lines(
    r: http::RequestView,
    path: Seq<char>,
    headers: Seq<(Seq<char>, Seq<char>)>,
    header: (Seq<char>, Seq<char>),
)
    ensures
        r.raw_query.len() == 0 ==> replayed(r, path) == r.method + " "@ + path + " HTTP/1.1\r\n"@
            + header_lines(forwarded(r.headers)) + "\r\n"@,
        r.raw_query.len() > 0 ==> replayed(r, path) == r.method + " "@ + (path + "?"@ + r.raw_query)
            + " HTTP/1.1\r\n"@ + header_lines(forwarded(r.headers)) + "\r\n"@,
        header_lines(Seq::empty()).len() == 0,
        header_lines(headers.push(header)) == header_lines(headers) + (header.0 + ": "@ + header.1
            + "\r\n"@),
{
    assert(headers.push(header).drop_last() =~= headers);
    assert(headers.push(header).last() == header);
    assert(header_lines(headers.push(header)) =~= header_lines(headers) + (header.0 + ": "@ + header.1
        + "\r\n"@));
}

} // verus!
