//! Credentials: which token a request needs, and what it may address.
//!
//! A dedicated server has one token and one sandbox. A host has two kinds: the host
//! token manages the pool, and every sandbox has a token of its own that addresses that
//! sandbox and nothing else.

use vstd::prelude::*;

use crate::text;
use crate::text::str_eq;

verus! {

/// Whether a token is required, and which one.
///
/// The case without a token has a name of its own, so that a token that is missing from
/// the configuration can never mean that every request is accepted.
pub enum Auth {
    /// This token is required on every route but `/health`.
    Required(String),
    /// For local development only.
    DisabledForDevelopment,
}

/// What a presented credential may address.
#[derive(Clone, Copy, Debug, PartialEq, Eq, Structural)]
pub enum Scope {
    /// The host token, or the token of a dedicated server.
    Host,
    /// The token of exactly one sandbox.
    Sandbox,
}

/// Which credential a route of a host needs.
pub enum RouteAuth<'a> {
    /// The pool and the recovery of tokens: the host token.
    Management,
    /// One sandbox: the token of that sandbox.
    Sandbox(&'a str),
    /// Not a route of a host.
    Unknown,
}

/// Which credential a route of a host needs.
pub enum RouteAuthView {
    Management,
    Sandbox(Seq<char>),
    Unknown,
}

impl<'a> View for RouteAuth<'a> {
    type V = RouteAuthView;

    open spec fn view(&self) -> RouteAuthView {
        match self {
            RouteAuth::Management => RouteAuthView::Management,
            RouteAuth::Sandbox(id) => RouteAuthView::Sandbox(id@),
            RouteAuth::Unknown => RouteAuthView::Unknown,
        }
    }
}

/// The token that was presented.
pub open spec fn token_of(provided: Option<&str>) -> Option<Seq<char>> {
    match provided {
        Some(t) => Some(t@),
        None => None,
    }
}

impl Auth {
    /// Whether a presented token is accepted.
    pub open spec fn admits(self, provided: Option<Seq<char>>) -> bool {
        match self {
            Auth::Required(expected) => provided == Some(expected@),
            Auth::DisabledForDevelopment => true,
        }
    }

    /// Whether the token that a request presents is accepted.
    pub fn accepts(&self, provided: Option<&str>) -> (r: bool)
        ensures
            r == self.admits(token_of(provided)),
    {
        match self {
            Auth::Required(expected) => match provided {
                Some(token) => ct_eq(token, expected.as_str()),
                None => false,
            },
            Auth::DisabledForDevelopment => true,
        }
    }
}

/// Compares two texts in a time that depends on their lengths alone: every byte is
/// looked at, whatever came before it.
pub fn ct_eq(a: &str, b: &str) -> (r: bool)
    ensures
        r == (a@ == b@),
{
    let x = a.as_bytes();
    let y = b.as_bytes();
    proof {
        vstd::utf8::encode_utf8_decode_utf8(a@);
        vstd::utf8::encode_utf8_decode_utf8(b@);
    }
    if x.len() != y.len() {
        return false;
    }
    let mut acc: u8 = 0;
    let mut i: usize = 0;
    while i < x.len()
        invariant
            i <= x@.len(),
            x@.len() == y@.len(),
            acc == 0 <==> forall|j: int| 0 <= j < i ==> x@[j] == y@[j],
        decreases x@.len() - i,
    {
        let ghost before = acc;
        let p: u8 = x[i];
        let q: u8 = y[i];
        acc = acc | (p ^ q);
        assert((before | (p ^ q)) == 0u8 <==> before == 0u8 && p == q) by (bit_vector);
        i += 1;
    }
    proof {
        if acc == 0 {
            assert(x@ =~= y@);
        }
    }
    acc == 0
}

/// Whether a path is one of a host: `/v1/sandboxes` or below it.
pub open spec fn host_path(segments: Seq<Seq<char>>) -> bool {
    segments.len() >= 2 && segments[0] == "v1"@ && segments[1] == "sandboxes"@
}

/// Which credential a path of a host needs.
pub open spec fn route_auth_of(segments: Seq<Seq<char>>) -> RouteAuthView {
    if !host_path(segments) {
        RouteAuthView::Unknown
    } else if segments.len() == 2 || (segments.len() == 4 && segments[3] == "token"@) {
        RouteAuthView::Management
    } else {
        RouteAuthView::Sandbox(segments[2])
    }
}

/// Whether a path is one of a host.
pub fn is_host_path(segments: &[&str]) -> (r: bool)
    ensures
        r == host_path(text::texts(segments@)),
{
    segments.len() >= 2 && str_eq(segments[0], "v1") && str_eq(segments[1], "sandboxes")
}

/// Which credential a path of a host needs.
pub fn host_route_auth<'a>(segments: &[&'a str]) -> (r: RouteAuth<'a>)
    ensures
        r@ == route_auth_of(text::texts(segments@)),
{
    if !is_host_path(segments) {
        RouteAuth::Unknown
    } else if segments.len() == 2 || (segments.len() == 4 && str_eq(segments[3], "token")) {
        RouteAuth::Management
    } else {
        RouteAuth::Sandbox(segments[2])
    }
}

/// What a token that is presented on a route of one sandbox may address. The host token
/// counts there only while `compat` holds.
pub open spec fn scope_on_sandbox(
    provided: Seq<char>,
    sandbox_token: Seq<char>,
    host: Auth,
    compat: bool,
) -> Option<Scope> {
    if provided == sandbox_token {
        Some(Scope::Sandbox)
    } else if compat && host.admits(Some(provided)) {
        Some(Scope::Host)
    } else {
        None
    }
}

/// What a token that is presented on a route of one sandbox may address.
pub fn classify_scoped_token(
    provided: &str,
    sandbox_token: &str,
    host: &Auth,
    compat: bool,
) -> (r: Option<Scope>)
    ensures
        r == scope_on_sandbox(provided@, sandbox_token@, *host, compat),
{
    if ct_eq(provided, sandbox_token) {
        return Some(Scope::Sandbox);
    }
    if compat && host.accepts(Some(provided)) {
        return Some(Scope::Host);
    }
    None
}

/// Whether a path exists in the mode of the server. The routes of a dedicated server act
/// with the server's own rights, so they do not exist on a host, and the other way round.
pub open spec fn path_in_mode(host_mode: bool, segments: Seq<Seq<char>>) -> bool {
    host_mode == host_path(segments)
}

/// Whether a path exists in the mode of the server.
pub fn route_mode_allowed(host_mode: bool, segments: &[&str]) -> (r: bool)
    ensures
        r == path_in_mode(host_mode, text::texts(segments@)),
{
    host_mode == is_host_path(segments)
}

// ---------------------------------------------------------------------------
// Laws
// ---------------------------------------------------------------------------

/// A path exists in exactly one of the two modes.
pub proof fn law_surfaces_are_exclusive(segments: Seq<Seq<char>>)
    ensures
        path_in_mode(true, segments) != path_in_mode(false, segments),
{
}

/// The token of one sandbox does not address another: on the routes of a sandbox with
/// another token it counts for nothing, unless it is the host token and that is still
/// accepted there.
pub proof fn law_sibling_token_is_refused(
    theirs: Seq<char>,
    mine: Seq<char>,
    host: Auth,
    compat: bool,
)
    requires
        theirs != mine,
    ensures
        scope_on_sandbox(theirs, mine, host, compat) != Some(Scope::Sandbox),
        !compat ==> scope_on_sandbox(theirs, mine, host, compat) is None,
        !host.admits(Some(theirs)) ==> scope_on_sandbox(theirs, mine, host, compat) is None,
{
}

/// The recovery of a token needs the host token, whatever the sandbox.
pub proof fn law_token_recovery_is_management(segments: Seq<Seq<char>>)
    requires
        host_path(segments),
        segments.len() == 4,
        segments[3] == "token"@,
    ensures
        route_auth_of(segments) == RouteAuthView::Management,
{
}

/// A required token is accepted when it is presented exactly, and nothing else is.
pub proof fn law_required_token_is_exact(expected: String, provided: Option<Seq<char>>)
    ensures
        Auth::Required(expected).admits(provided) <==> provided == Some(expected@),
{
}

/// The token of a sandbox is accepted on the routes of that sandbox, whatever the host token
/// is and whether or not that counts there; the host token counts there while it is accepted.
pub proof fn law_own_token_is_accepted(mine: Seq<char>, other: Seq<char>, host: Auth, compat: bool)
    ensures
        scope_on_sandbox(mine, mine, host, compat) == Some(Scope::Sandbox),
        other != mine && host.admits(Some(other)) ==> scope_on_sandbox(other, mine, host, true) == Some(
            Scope::Host,
        ),
        Auth::DisabledForDevelopment.admits(Some(other)),
        Auth::DisabledForDevelopment.admits(None),
{
}

/// The paths of a host are `/v1/sandboxes` and those below it. The first needs the host token;
/// so does the token of a sandbox; every other one that names a sandbox needs the token of the
/// sandbox that it names.
pub proof fn law_paths_need_their_credential(id: Seq<char>, rest: Seq<Seq<char>>)
    ensures
        route_auth_of(seq!["v1"@, "sandboxes"@]) == RouteAuthView::Management,
        rest != seq!["token"@] ==> route_auth_of(seq!["v1"@, "sandboxes"@, id] + rest)
            == RouteAuthView::Sandbox(id),
        route_auth_of(seq!["v1"@, "sandboxes"@, id, "token"@]) == RouteAuthView::Management,
        host_path(seq!["v1"@, "sandboxes"@] + rest),
        rest.len() < 2 || rest[0] != "v1"@ || rest[1] != "sandboxes"@ ==> !host_path(rest)
            && route_auth_of(rest) == RouteAuthView::Unknown && path_in_mode(false, rest)
            && !path_in_mode(true, rest),
        path_in_mode(true, seq!["v1"@, "sandboxes"@] + rest),
{
    let s = seq!["v1"@, "sandboxes"@, id] + rest;
    assert(s[0] == "v1"@ && s[1] == "sandboxes"@ && s[2] == id);
    if s.len() == 4 && s[3] == "token"@ {
        assert(rest[0] == s[3]);
        assert(rest =~= seq!["token"@]);
    }
    let t = seq!["v1"@, "sandboxes"@] + rest;
    assert(t[0] == "v1"@ && t[1] == "sandboxes"@);
}

/// A token that is presented denotes its text.
pub proof fn law_presented_token_is_its_text(token: &str)
    ensures
        token_of(Some(token)) == Some(token@),
        token_of(None) is None,
{
}

} // verus!
