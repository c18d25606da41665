//! Paths inside a sandbox home, and the steps by which the server reaches them.
//!
//! The server has rights that the sandbox has not, while the names it acts on belong to
//! the sandbox. So a path is first made relative and plain, and then walked one name at
//! a time from an open home directory. No step follows a symbolic link, so no name can
//! lead out of the home.

use vstd::prelude::*;

use crate::number;
use crate::number::write_decimal;
use crate::text;
use crate::text::{chars_of, join_strs, split_str, str_eq};

verus! {

// ---------------------------------------------------------------------------
// Paths as texts
// ---------------------------------------------------------------------------

/// The pieces of a path between its slashes.
pub open spec fn pieces(path: Seq<char>) -> Seq<Seq<char>> {
    text::split(path, seq!['/'])
}

/// A name that stands for an entry of a directory, and nothing else.
pub open spec fn plain(name: Seq<char>) -> bool {
    &&& name.len() > 0
    &&& name != "."@
    &&& name != ".."@
    &&& !name.contains('/')
}

/// The names that are left of the pieces of a path: empty ones and `.` stand for
/// nothing, and `..` takes the name before it back, where there is one.
pub open spec fn settled(parts: Seq<Seq<char>>) -> Seq<Seq<char>>
    decreases parts.len(),
{
    if parts.len() == 0 {
        Seq::empty()
    } else {
        let before = settled(parts.drop_last());
        let last = parts.last();
        if last.len() == 0 || last == "."@ {
            before
        } else if last == ".."@ {
            if before.len() > 0 {
                before.drop_last()
            } else {
                before
            }
        } else {
            before.push(last)
        }
    }
}

/// A path made relative: a leading slash is dropped and `..` is resolved in the text.
pub open spec fn normal_path(path: Seq<char>) -> Seq<char> {
    text::join(settled(pieces(path)), seq!['/'])
}

/// Makes a path that a client gave relative, so that it cannot name anything above the
/// place that it is resolved at.
pub fn normalize_relative(path: &str) -> (r: String)
    ensures
        r@ == normal_path(path@),
{
    let parts = split_str(path, '/');
    let ghost all = text::texts(parts@);
    let mut kept: Vec<&str> = Vec::new();
    let mut i: usize = 0;
    assert(all.take(0) =~= Seq::<Seq<char>>::empty());
    assert(text::texts(kept@) =~= Seq::<Seq<char>>::empty());
    while i < parts.len()
        invariant
            i <= parts@.len(),
            all == text::texts(parts@),
            text::texts(kept@) == settled(all.take(i as int)),
        decreases parts@.len() - i,
    {
        let part = parts[i];
        let ghost before = kept@;
        proof {
            assert(all.take(i + 1).drop_last() =~= all.take(i as int));
            assert(all.take(i + 1).last() == part@);
            assert(text::texts(before).len() == before.len());
        }
        if part.is_empty() || str_eq(part, ".") {
        } else if str_eq(part, "..") {
            if kept.len() > 0 {
                kept.pop();
                assert(text::texts(kept@) =~= text::texts(before).drop_last());
            }
        } else {
            kept.push(part);
            assert(text::texts(kept@) =~= text::texts(before).push(part@));
        }
        i += 1;
    }
    assert(all.take(all.len() as int) =~= all);
    proof {
        reveal_strlit("/");
        assert("/"@ =~= seq!['/']);
    }
    join_strs(kept.as_slice(), "/")
}

/// The pieces that are names: those that are not empty, `.` or `..`.
pub open spec fn names_in(parts: Seq<Seq<char>>) -> Seq<Seq<char>>
    decreases parts.len(),
{
    if parts.len() == 0 {
        Seq::empty()
    } else {
        let before = names_in(parts.drop_last());
        let last = parts.last();
        if last.len() == 0 || last == "."@ || last == ".."@ {
            before
        } else {
            before.push(last)
        }
    }
}

/// The names that a walk along a path goes through.
pub open spec fn names_of(path: Seq<char>) -> Seq<Seq<char>> {
    names_in(pieces(path))
}

/// The names that a walk along a path goes through.
pub fn components_of(path: &str) -> (r: Vec<String>)
    ensures
        text::strings(r@) == names_of(path@),
{
    let parts = split_str(path, '/');
    let ghost all = text::texts(parts@);
    let mut kept: Vec<String> = Vec::new();
    let mut i: usize = 0;
    assert(all.take(0) =~= Seq::<Seq<char>>::empty());
    assert(text::strings(kept@) =~= Seq::<Seq<char>>::empty());
    while i < parts.len()
        invariant
            i <= parts@.len(),
            all == text::texts(parts@),
            text::strings(kept@) == names_in(all.take(i as int)),
        decreases parts@.len() - i,
    {
        let part = parts[i];
        let ghost before = kept@;
        proof {
            assert(all.take(i + 1).drop_last() =~= all.take(i as int));
            assert(all.take(i + 1).last() == part@);
        }
        if !(part.is_empty() || str_eq(part, ".") || str_eq(part, "..")) {
            kept.push(part.to_owned());
            assert(text::strings(kept@) =~= text::strings(before).push(part@));
        }
        i += 1;
    }
    assert(all.take(all.len() as int) =~= all);
    kept
}

proof fn lemma_settled_plain(parts: Seq<Seq<char>>)
    requires
        forall|i: int| 0 <= i < parts.len() ==> !(#[trigger] parts[i]).contains('/'),
    ensures
        forall|i: int| 0 <= i < settled(parts).len() ==> plain(#[trigger] settled(parts)[i]),
    decreases parts.len(),
{
    if parts.len() > 0 {
        let front = parts.drop_last();
        assert forall|i: int| 0 <= i < front.len() implies !(#[trigger] front[i]).contains('/') by {
            assert(front[i] == parts[i]);
        }
        lemma_settled_plain(front);
        assert(parts.last() == parts[parts.len() - 1]);
        let before = settled(front);
        let all = settled(parts);
        assert forall|i: int| 0 <= i < all.len() implies plain(#[trigger] all[i]) by {
            if i < before.len() {
                assert(all[i] == before[i]);
            } else {
                assert(all[i] == parts.last());
            }
        }
    }
}

proof fn lemma_pieces_free(path: Seq<char>)
    ensures
        pieces(path).len() > 0,
        forall|i: int| 0 <= i < pieces(path).len() ==> !(#[trigger] pieces(path)[i]).contains('/'),
{
    text::lemma_split_free(path, seq!['/'], 0);
    assert forall|i: int| 0 <= i < pieces(path).len() implies !(#[trigger] pieces(path)[i]).contains(
        '/',
    ) by {
        text::lemma_char_free(pieces(path)[i], '/');
    }
}

/// Whatever a client gives, what is left of it is a run of plain names: no step of a
/// walk along it can go up, start at a root, or stand still.
pub proof fn law_normalized_is_plain(path: Seq<char>)
    ensures
        forall|i: int|
            0 <= i < settled(pieces(path)).len() ==> plain(#[trigger] settled(pieces(path))[i]),
{
    lemma_pieces_free(path);
    lemma_settled_plain(pieces(path));
}

proof fn lemma_plain_settles(parts: Seq<Seq<char>>)
    requires
        forall|i: int| 0 <= i < parts.len() ==> plain(#[trigger] parts[i]),
    ensures
        settled(parts) == parts,
        names_in(parts) == parts,
        solid(parts) == parts,
    decreases parts.len(),
{
    if parts.len() > 0 {
        let front = parts.drop_last();
        assert forall|i: int| 0 <= i < front.len() implies plain(#[trigger] front[i]) by {
            assert(front[i] == parts[i]);
        }
        lemma_plain_settles(front);
        assert(parts.last() == parts[parts.len() - 1]);
        assert(front.push(parts.last()) =~= parts);
    } else {
        assert(parts =~= Seq::<Seq<char>>::empty());
    }
}

/// The empty path has one piece, which stands for nothing.
proof fn lemma_empty_path()
    ensures
        pieces(Seq::empty()) == seq![Seq::<char>::empty()],
        settled(pieces(Seq::empty())) == Seq::<Seq<char>>::empty(),
        names_of(Seq::empty()) == Seq::<Seq<char>>::empty(),
        solid(pieces(Seq::empty())) == Seq::<Seq<char>>::empty(),
        anchor(Seq::empty()) == Seq::<Seq<char>>::empty(),
{
    let none = Seq::<char>::empty();
    text::lemma_char_free(none, '/');
    text::lemma_split_whole(none, seq!['/']);
    let p = pieces(none);
    assert(p =~= seq![none]);
    assert(p.last() == none);
    let front = p.drop_last();
    assert(front.len() == 0);
    assert(settled(front) =~= Seq::<Seq<char>>::empty());
    assert(names_in(front) =~= Seq::<Seq<char>>::empty());
    assert(solid(front) =~= Seq::<Seq<char>>::empty());
    reveal_strlit(".");
    assert("."@.len() == 1);
    assert(p[0].len() == 0);
}

/// The pieces of a path that was made of plain names are those names, or the one empty
/// piece of the empty path.
pub proof fn lemma_pieces_of_joined(parts: Seq<Seq<char>>)
    requires
        forall|i: int| 0 <= i < parts.len() ==> plain(#[trigger] parts[i]),
    ensures
        settled(pieces(text::join(parts, seq!['/']))) == parts,
        names_of(text::join(parts, seq!['/'])) == parts,
        solid(pieces(text::join(parts, seq!['/']))) == parts,
{
    let p = text::join(parts, seq!['/']);
    if parts.len() == 0 {
        lemma_empty_path();
        assert(parts =~= Seq::<Seq<char>>::empty());
    } else {
        text::law_split_undoes_join(parts, '/');
        lemma_plain_settles(parts);
    }
}

/// A path that was made relative stays as it is when that is done again.
pub proof fn law_normalize_is_idempotent(path: Seq<char>)
    ensures
        normal_path(normal_path(path)) == normal_path(path),
{
    law_normalized_is_plain(path);
    lemma_pieces_of_joined(settled(pieces(path)));
}

/// What a walk along a path that was made relative goes through is what the path was
/// reduced to.
pub proof fn law_walk_follows_the_normal_path(path: Seq<char>)
    ensures
        names_of(normal_path(path)) == settled(pieces(path)),
{
    law_normalized_is_plain(path);
    lemma_pieces_of_joined(settled(pieces(path)));
}

// ---------------------------------------------------------------------------
// Components, joining and ancestors
// ---------------------------------------------------------------------------

/// The pieces of a path that count: empty ones and `.` do not.
pub open spec fn solid(parts: Seq<Seq<char>>) -> Seq<Seq<char>>
    decreases parts.len(),
{
    if parts.len() == 0 {
        Seq::empty()
    } else {
        let before = solid(parts.drop_last());
        let last = parts.last();
        if last.len() == 0 || last == "."@ {
            before
        } else {
            before.push(last)
        }
    }
}

/// What a path starts with: `/` for the root, `.` where it says so, otherwise nothing.
pub open spec fn anchor(path: Seq<char>) -> Seq<Seq<char>> {
    if path.len() > 0 && path[0] == '/' {
        seq![seq!['/']]
    } else if pieces(path)[0] == "."@ {
        seq!["."@]
    } else {
        Seq::empty()
    }
}

/// The components of a path. The root is a component of its own.
pub open spec fn components(path: Seq<char>) -> Seq<Seq<char>> {
    anchor(path) + solid(pieces(path))
}

/// The path of something relative to a directory. An absolute path stands for itself.
pub open spec fn joined(dir: Seq<char>, rel: Seq<char>) -> Seq<char> {
    if rel.len() > 0 && rel[0] == '/' {
        rel
    } else if dir.len() == 0 || dir.last() == '/' {
        dir + rel
    } else {
        dir + seq!['/'] + rel
    }
}

/// The path of something relative to a directory. An absolute path stands for itself.
pub fn join_path(dir: &str, rel: &str) -> (r: String)
    ensures
        r@ == joined(dir@, rel@),
{
    let wanted = chars_of(rel);
    if wanted.len() > 0 && wanted[0] == '/' {
        return rel.to_owned();
    }
    let chars = chars_of(dir);
    let n: usize = chars.len();
    let mut r: String = dir.to_owned();
    if n > 0 && chars[n - 1] != '/' {
        r.push('/');
        assert(r@ =~= dir@ + seq!['/']);
    }
    r.append(rel);
    r
}

proof fn lemma_solid_concat(a: Seq<Seq<char>>, b: Seq<Seq<char>>)
    ensures
        solid(a + b) == solid(a) + solid(b),
    decreases b.len(),
{
    if b.len() == 0 {
        assert(a + b =~= a);
        assert(solid(a) + solid(b) =~= solid(a));
    } else {
        lemma_solid_concat(a, b.drop_last());
        assert((a + b).drop_last() =~= a + b.drop_last());
        assert((a + b).last() == b.last());
        assert(solid(a + b) =~= solid(a) + solid(b));
    }
}

/// The pieces on both sides of a slash.
proof fn lemma_pieces_concat(a: Seq<char>, t: Seq<char>)
    ensures
        pieces(a + seq!['/'] + t) == pieces(a) + pieces(t),
    decreases a.len(),
{
    text::lemma_char_free(a, '/');
    if !a.contains('/') {
        text::lemma_split_first(a, '/', t);
        text::lemma_split_whole(a, seq!['/']);
    } else {
        text::lemma_find_from(a, seq!['/'], 0);
        let k = text::find(a, seq!['/'])->0;
        text::lemma_occurs_char(a, '/', k);
        let head = a.take(k);
        let tail = a.skip(k + 1);
        assert(!head.contains('/')) by {
            if head.contains('/') {
                let j = choose|j: int| 0 <= j < head.len() && head[j] == '/';
                text::lemma_occurs_char(a, '/', j);
            }
        }
        assert(a =~= head + seq!['/'] + tail);
        assert(a + seq!['/'] + t =~= head + seq!['/'] + (tail + seq!['/'] + t));
        text::lemma_split_first(head, '/', tail);
        text::lemma_split_first(head, '/', tail + seq!['/'] + t);
        lemma_pieces_concat(tail, t);
        assert(pieces(a + seq!['/'] + t) =~= pieces(a) + pieces(t));
    }
}

/// A path that was made relative and put behind a home stays under that home: its
/// components are those of the home, and behind them plain names.
pub proof fn law_normalized_stays_under_home(home: Seq<char>, path: Seq<char>)
    ensures
        components(joined(home, normal_path(path))) == components(home) + settled(pieces(path)),
{
    let parts = settled(pieces(path));
    let rel = normal_path(path);
    let j = joined(home, rel);
    law_normalized_is_plain(path);
    lemma_pieces_of_joined(parts);
    lemma_pieces_free(home);
    lemma_pieces_free(rel);
    if home.len() == 0 {
        assert(j =~= rel);
        lemma_anchor_of_plain(parts);
        lemma_empty_path();
        assert(home =~= Seq::<char>::empty());
        assert(components(j) =~= components(home) + parts);
    } else {
        let dir = if home.last() == '/' {
            home.drop_last()
        } else {
            home
        };
        assert(j =~= dir + seq!['/'] + rel);
        lemma_pieces_concat(dir, rel);
        lemma_pieces_free(dir);
        lemma_solid_concat(pieces(dir), pieces(rel));
        if home.last() == '/' {
            let none = Seq::<char>::empty();
            assert(home =~= dir + seq!['/'] + none);
            lemma_pieces_concat(dir, none);
            lemma_pieces_free(none);
            lemma_solid_concat(pieces(dir), pieces(none));
            lemma_empty_path();
            assert(solid(pieces(home)) =~= solid(pieces(dir)));
            assert(pieces(home)[0] == pieces(dir)[0]);
        }
        assert(pieces(j)[0] == pieces(dir)[0]);
        assert(j[0] == home[0]);
        assert(anchor(j) == anchor(home));
        assert(components(j) =~= components(home) + parts);
    }
}

/// A path of plain names has no anchor.
proof fn lemma_anchor_of_plain(parts: Seq<Seq<char>>)
    requires
        forall|i: int| 0 <= i < parts.len() ==> plain(#[trigger] parts[i]),
    ensures
        anchor(text::join(parts, seq!['/'])) == Seq::<Seq<char>>::empty(),
{
    let p = text::join(parts, seq!['/']);
    if parts.len() == 0 {
        lemma_empty_path();
    } else {
        text::law_split_undoes_join(parts, '/');
        assert(plain(parts[0]));
        if parts.len() == 1 {
            assert(p == parts[0]);
        } else {
            assert(p[0] == parts[0][0]);
        }
        assert(parts[0].contains(parts[0][0]));
    }
}

/// The components of a path.
pub fn path_components(path: &str) -> (r: Vec<String>)
    ensures
        text::strings(r@) == components(path@),
{
    let parts = split_str(path, '/');
    let ghost all = text::texts(parts@);
    let chars = chars_of(path);
    let mut kept: Vec<String> = Vec::new();
    proof {
        reveal_strlit("/");
        assert("/"@ =~= seq!['/']);
        lemma_pieces_free(path@);
        assert(all[0] == parts@[0]@);
    }
    if chars.len() > 0 && chars[0] == '/' {
        kept.push("/".to_owned());
    } else if str_eq(parts[0], ".") {
        kept.push(".".to_owned());
    }
    assert(text::strings(kept@) =~= anchor(path@));
    let mut i: usize = 0;
    assert(all.take(0) =~= Seq::<Seq<char>>::empty());
    assert(anchor(path@) + solid(all.take(0)) =~= anchor(path@));
    while i < parts.len()
        invariant
            i <= parts@.len(),
            all == text::texts(parts@),
            text::strings(kept@) == anchor(path@) + solid(all.take(i as int)),
        decreases parts@.len() - i,
    {
        let part = parts[i];
        let ghost before = kept@;
        proof {
            assert(all.take(i + 1).drop_last() =~= all.take(i as int));
            assert(all.take(i + 1).last() == part@);
        }
        if !(part.is_empty() || str_eq(part, ".")) {
            kept.push(part.to_owned());
            assert(text::strings(kept@) =~= text::strings(before).push(part@));
            assert(text::strings(kept@) =~= anchor(path@) + solid(all.take(i + 1)));
        }
        i += 1;
    }
    assert(all.take(all.len() as int) =~= all);
    kept
}

/// The text of a path with the given components.
pub open spec fn path_text(parts: Seq<Seq<char>>) -> Seq<char> {
    if parts.len() > 0 && parts[0] == seq!['/'] {
        seq!['/'] + text::join(parts.skip(1), seq!['/'])
    } else {
        text::join(parts, seq!['/'])
    }
}

/// The text of the path that the first `n` components make.
pub fn prefix_text(parts: &Vec<String>, n: usize) -> (r: String)
    requires
        n <= parts@.len(),
    ensures
        r@ == path_text(text::strings(parts@).take(n as int)),
{
    let ghost all = text::strings(parts@).take(n as int);
    let rooted = n > 0 && str_eq(parts[0].as_str(), "/");
    proof {
        reveal_strlit("/");
        assert("/"@ =~= seq!['/']);
        if n > 0 {
            assert(all[0] == parts@[0]@);
        }
    }
    let from: usize = if rooted {
        1
    } else {
        0
    };
    let mut slices: Vec<&str> = Vec::new();
    let mut i: usize = from;
    while i < n
        invariant
            from <= i <= n,
            n <= parts@.len(),
            slices@.len() == i - from,
            forall|j: int| 0 <= j < i - from ==> (#[trigger] slices@[j])@ == parts@[from + j]@,
        decreases n - i,
    {
        slices.push(parts[i].as_str());
        i += 1;
    }
    assert(text::texts(slices@) =~= all.skip(from as int));
    let rest = join_strs(slices.as_slice(), "/");
    if rooted {
        let mut r: String = "/".to_owned();
        r.append(rest.as_str());
        r
    } else {
        assert(all.skip(0) =~= all);
        rest
    }
}

/// The `/proc` name of an open descriptor.
pub fn proc_fd_path(fd: u32) -> (r: String)
    ensures
        r@ == "/proc/self/fd/"@ + number::decimal(fd as nat),
{
    let mut r: String = "/proc/self/fd/".to_owned();
    r.append(write_decimal(fd as u64).as_str());
    r
}

// ---------------------------------------------------------------------------
// Steps of a walk
// ---------------------------------------------------------------------------

/// The permissions of a directory that a walk makes.
pub const DIR_MODE: u32 = 0o700;

/// The permissions of a file that a write makes.
pub const FILE_MODE: u32 = 0o600;

/// How an entry is opened.
#[derive(Clone, Copy, Debug, PartialEq, Eq, Structural)]
pub enum OpenMode {
    /// As a directory.
    Directory,
    /// As a name only, so that it can be looked at without being followed.
    PathOnly,
    /// For reading.
    Read,
    /// For writing; made where it is missing, and emptied where that is asked for.
    Write { truncate: bool },
}

/// What an open asks of the system.
#[derive(Clone, Copy, Debug, PartialEq, Eq, Structural)]
pub struct OpenFlags {
    pub write: bool,
    pub create: bool,
    pub truncate: bool,
    pub directory: bool,
    pub path_only: bool,
    /// Do not follow a symbolic link.
    pub no_follow: bool,
    /// Do not hand the descriptor to a child.
    pub close_on_exec: bool,
    /// Do not wait for the other end of a pipe or a device.
    pub non_blocking: bool,
}

/// What an open asks of the system. Whatever it is for, it never follows a link, never
/// leaks into a child and never waits.
pub open spec fn flags_of(mode: OpenMode) -> OpenFlags {
    OpenFlags {
        write: mode is Write,
        create: mode is Write,
        truncate: mode matches OpenMode::Write { truncate } && truncate,
        directory: mode is Directory,
        path_only: mode is PathOnly,
        no_follow: true,
        close_on_exec: true,
        non_blocking: true,
    }
}

/// What an open asks of the system.
pub fn open_flags(mode: OpenMode) -> (r: OpenFlags)
    ensures
        r == flags_of(mode),
{
    let (write, truncate): (bool, bool) = match mode {
        OpenMode::Write { truncate } => (true, truncate),
        _ => (false, false),
    };
    let directory = match mode {
        OpenMode::Directory => true,
        _ => false,
    };
    let path_only = match mode {
        OpenMode::PathOnly => true,
        _ => false,
    };
    OpenFlags {
        write,
        create: write,
        truncate,
        directory,
        path_only,
        no_follow: true,
        close_on_exec: true,
        non_blocking: true,
    }
}

/// One step of a walk that starts at the open home directory.
pub enum FsStep {
    /// Make a directory with `DIR_MODE` in the directory that is open. That something of
    /// the name exists is no error.
    Mkdir(String),
    /// Open an entry of the directory that is open; it is what is open from now on.
    Open(String, OpenMode),
    /// Go on only when what is open may be read (`check_readable`).
    CheckReadable,
    /// Go on only when what is open may be written (`check_writable`).
    CheckWritable,
    /// Give what is open to the sandbox. That this fails is no error.
    Own,
}

/// One step of a walk.
pub enum StepView {
    Mkdir(Seq<char>),
    Open(Seq<char>, OpenMode),
    CheckReadable,
    CheckWritable,
    Own,
}

impl View for FsStep {
    type V = StepView;

    open spec fn view(&self) -> StepView {
        match self {
            FsStep::Mkdir(name) => StepView::Mkdir(name@),
            FsStep::Open(name, mode) => StepView::Open(name@, *mode),
            FsStep::CheckReadable => StepView::CheckReadable,
            FsStep::CheckWritable => StepView::CheckWritable,
            FsStep::Own => StepView::Own,
        }
    }
}

/// What a run of steps denotes.
pub open spec fn step_views(v: Seq<FsStep>) -> Seq<StepView> {
    Seq::new(v.len(), |i: int| v[i]@)
}

/// The steps into a directory, which is made first and given to the sandbox where `create`
/// says so.
pub open spec fn enter(name: Seq<char>, create: bool) -> Seq<StepView> {
    if create {
        seq![StepView::Mkdir(name), StepView::Open(name, OpenMode::Directory), StepView::Own]
    } else {
        seq![StepView::Open(name, OpenMode::Directory)]
    }
}

/// The steps through a run of directories.
pub open spec fn descend(names: Seq<Seq<char>>, create: bool) -> Seq<StepView>
    decreases names.len(),
{
    if names.len() == 0 {
        Seq::empty()
    } else {
        descend(names.drop_last(), create) + enter(names.last(), create)
    }
}

/// Where a walk ends: the steps to the directory that holds the last name, and that
/// name. There is none when the path is that of the home itself.
pub struct Located {
    pub steps: Vec<FsStep>,
    pub name: Option<String>,
}

/// Why a walk is not started, or why what it found is not used.
#[derive(Clone, Copy, Debug, PartialEq, Eq, Structural)]
pub enum FsRefusal {
    /// A directory, where a file is asked for.
    IsDirectory,
    /// Neither a directory nor a regular file.
    NotRegular,
    /// The home itself, which the sandbox may not delete.
    HomeItself,
}

impl FsRefusal {
    /// The message of the refusal; a directory brings the system's own.
    pub open spec fn text(self) -> Option<Seq<char>> {
        match self {
            FsRefusal::IsDirectory => None,
            FsRefusal::NotRegular => Some("not a regular file"@),
            FsRefusal::HomeItself => Some("cannot delete the sandbox home"@),
        }
    }

    /// The message of the refusal; a directory brings the system's own.
    pub fn message(self) -> (r: Option<&'static str>)
        ensures
            match r {
                Some(m) => self.text() == Some(m@),
                None => self.text() is None,
            },
    {
        match self {
            FsRefusal::IsDirectory => None,
            FsRefusal::NotRegular => Some("not a regular file"),
            FsRefusal::HomeItself => Some("cannot delete the sandbox home"),
        }
    }
}

/// What an entry is.
#[derive(Clone, Copy, Debug, PartialEq, Eq, Structural)]
pub enum FileKind {
    File,
    Directory,
    Symlink,
    Other,
}

/// Whether what was opened for reading may be read.
pub fn check_readable(kind: FileKind) -> (r: Result<(), FsRefusal>)
    ensures
        r == (match kind {
            FileKind::Directory => Err::<(), FsRefusal>(FsRefusal::IsDirectory),
            FileKind::File => Ok::<(), FsRefusal>(()),
            _ => Err::<(), FsRefusal>(FsRefusal::NotRegular),
        }),
{
    match kind {
        FileKind::Directory => Err(FsRefusal::IsDirectory),
        FileKind::File => Ok(()),
        _ => Err(FsRefusal::NotRegular),
    }
}

/// Whether what was opened for writing may be written.
pub fn check_writable(kind: FileKind) -> (r: Result<(), FsRefusal>)
    ensures
        r == (match kind {
            FileKind::File => Ok::<(), FsRefusal>(()),
            _ => Err::<(), FsRefusal>(FsRefusal::NotRegular),
        }),
{
    match kind {
        FileKind::File => Ok(()),
        _ => Err(FsRefusal::NotRegular),
    }
}

/// How an entry is deleted.
#[derive(Clone, Copy, Debug, PartialEq, Eq, Structural)]
pub enum Removal {
    /// The entry itself goes; a link is not followed.
    Unlink,
    /// An empty directory goes.
    RemoveDirectory,
    /// What is in the directory goes first.
    RemoveTree,
}

/// How an entry is deleted. One that cannot be looked at is taken for no directory.
pub fn removal_of(kind: Option<FileKind>, recursive: bool) -> (r: Removal)
    ensures
        r == (if kind != Some(FileKind::Directory) {
            Removal::Unlink
        } else if recursive {
            Removal::RemoveTree
        } else {
            Removal::RemoveDirectory
        }),
{
    match kind {
        Some(FileKind::Directory) => if recursive {
            Removal::RemoveTree
        } else {
            Removal::RemoveDirectory
        },
        _ => Removal::Unlink,
    }
}

/// The positions at which a mark is `wanted`, in their order.
pub open spec fn marked(marks: Seq<bool>, wanted: bool) -> Seq<usize>
    decreases marks.len(),
{
    if marks.len() == 0 {
        Seq::empty()
    } else if marks.last() == wanted {
        marked(marks.drop_last(), wanted).push((marks.len() - 1) as usize)
    } else {
        marked(marks.drop_last(), wanted)
    }
}

/// Sorts out what is in a directory that is being removed, given which of its entries are
/// directories: the positions of the entries to unlink at once, and those of the
/// directories to empty first.
pub fn removal_order(is_dir: &Vec<bool>) -> (r: (Vec<usize>, Vec<usize>))
    ensures
        r.0@ == marked(is_dir@, false),
        r.1@ == marked(is_dir@, true),
{
    let mut files: Vec<usize> = Vec::new();
    let mut dirs: Vec<usize> = Vec::new();
    let mut i: usize = 0;
    assert(is_dir@.take(0) =~= Seq::<bool>::empty());
    while i < is_dir.len()
        invariant
            i <= is_dir@.len(),
            files@ == marked(is_dir@.take(i as int), false),
            dirs@ == marked(is_dir@.take(i as int), true),
        decreases is_dir@.len() - i,
    {
        proof {
            assert(is_dir@.take(i + 1).drop_last() =~= is_dir@.take(i as int));
            assert(is_dir@.take(i + 1).last() == is_dir@[i as int]);
        }
        if is_dir[i] {
            dirs.push(i);
        } else {
            files.push(i);
        }
        i += 1;
    }
    assert(is_dir@.take(i as int) =~= is_dir@);
    (files, dirs)
}

fn push_enter(steps: &mut Vec<FsStep>, name: &String, create: bool)
    ensures
        step_views(final(steps)@) == step_views(old(steps)@) + enter(name@, create),
{
    let ghost before = step_views(steps@);
    if create {
        steps.push(FsStep::Mkdir(name.clone()));
    }
    steps.push(FsStep::Open(name.clone(), OpenMode::Directory));
    if create {
        steps.push(FsStep::Own);
    }
    assert(step_views(steps@) =~= before + enter(name@, create));
}

/// The home directory of one sandbox, and the uid that owns it.
pub struct ScopedRoot {
    pub home: String,
    pub uid: u32,
}

/// The steps of an operation that ends with opening the last name of a path.
pub open spec fn opening(path: Seq<char>, create: bool, mode: OpenMode) -> Seq<StepView> {
    let names = names_of(path);
    descend(names.drop_last(), create) + seq![StepView::Open(names.last(), mode)]
}

/// The steps that open a file for reading. A pipe or a device is not read.
pub open spec fn reading(path: Seq<char>) -> Seq<StepView> {
    opening(path, false, OpenMode::Read).push(StepView::CheckReadable)
}

/// The steps that open a file for writing and give it to the sandbox. A pipe or a device
/// is not written.
pub open spec fn writing(path: Seq<char>, create: bool, truncate: bool) -> Seq<StepView> {
    opening(path, create, OpenMode::Write { truncate }).push(StepView::CheckWritable).push(
        StepView::Own,
    )
}

impl ScopedRoot {
    /// The home of a sandbox.
    pub fn new(home: &str, uid: u32) -> (r: ScopedRoot)
        ensures
            r.home@ == home@,
            r.uid == uid,
    {
        ScopedRoot { home: home.to_owned(), uid }
    }

    /// The absolute path of something in the home, for messages only.
    pub fn display(&self, rel: &str) -> (r: String)
        ensures
            r@ == joined(self.home@, rel@),
    {
        join_path(self.home.as_str(), rel)
    }

    /// The way to the directory that holds the last name of a path. Directories that are
    /// missing on the way are made, and given to the sandbox, where `create_dirs` says so.
    pub fn locate(&self, rel: &str, create_dirs: bool) -> (r: Located)
        ensures
            match r.name {
                Some(name) => names_of(rel@).len() > 0 && name@ == names_of(rel@).last()
                    && step_views(r.steps@) == descend(names_of(rel@).drop_last(), create_dirs),
                None => names_of(rel@).len() == 0 && r.steps@.len() == 0,
            },
    {
        let mut names = components_of(rel);
        let ghost all = names_of(rel@);
        let mut steps: Vec<FsStep> = Vec::new();
        if names.len() == 0 {
            return Located { steps, name: None };
        }
        let ghost full = names@;
        let name = names.pop();
        let ghost front = text::strings(names@);
        assert(front =~= all.drop_last());
        assert(name.unwrap()@ == all.last());
        let mut i: usize = 0;
        assert(front.take(0) =~= Seq::<Seq<char>>::empty());
        assert(step_views(steps@) =~= Seq::<StepView>::empty());
        while i < names.len()
            invariant
                i <= names@.len(),
                front == text::strings(names@),
                step_views(steps@) == descend(front.take(i as int), create_dirs),
            decreases names@.len() - i,
        {
            proof {
                assert(front.take(i + 1).drop_last() =~= front.take(i as int));
                assert(front.take(i + 1).last() == names@[i as int]@);
            }
            push_enter(&mut steps, &names[i], create_dirs);
            i += 1;
        }
        assert(front.take(front.len() as int) =~= front);
        Located { steps, name }
    }

    fn open_last(&self, rel: &str, create_dirs: bool, mode: OpenMode) -> (r: Option<Vec<FsStep>>)
        ensures
            match r {
                Some(steps) => names_of(rel@).len() > 0 && step_views(steps@) == opening(
                    rel@,
                    create_dirs,
                    mode,
                ),
                None => names_of(rel@).len() == 0,
            },
    {
        let Located { mut steps, name } = self.locate(rel, create_dirs);
        let ghost before = step_views(steps@);
        match name {
            Some(name) => {
                let ghost last = name@;
                steps.push(FsStep::Open(name, mode));
                assert(step_views(steps@) =~= before + seq![StepView::Open(last, mode)]);
                Some(steps)
            },
            None => None,
        }
    }

    /// The steps that open a file for reading. The home itself is a directory.
    pub fn open_read(&self, rel: &str) -> (r: Result<Vec<FsStep>, FsRefusal>)
        ensures
            match r {
                Ok(steps) => names_of(rel@).len() > 0 && step_views(steps@) == reading(rel@),
                Err(e) => names_of(rel@).len() == 0 && e == FsRefusal::IsDirectory,
            },
    {
        match self.open_last(rel, false, OpenMode::Read) {
            Some(mut steps) => {
                let ghost before = step_views(steps@);
                steps.push(FsStep::CheckReadable);
                assert(step_views(steps@) =~= before.push(StepView::CheckReadable));
                Ok(steps)
            },
            None => Err(FsRefusal::IsDirectory),
        }
    }

    /// The steps that open a file for writing and give it to the sandbox. A plain write
    /// empties the file first; a write at an offset leaves the rest of it alone.
    pub fn open_write(&self, rel: &str, create_parents: bool, offset: Option<u64>) -> (r: Result<
        Vec<FsStep>,
        FsRefusal,
    >)
        ensures
            match r {
                Ok(steps) => names_of(rel@).len() > 0 && step_views(steps@) == writing(
                    rel@,
                    create_parents,
                    offset is None,
                ),
                Err(e) => names_of(rel@).len() == 0 && e == FsRefusal::IsDirectory,
            },
    {
        let truncate = offset.is_none();
        match self.open_last(rel, create_parents, OpenMode::Write { truncate }) {
            Some(mut steps) => {
                let ghost before = step_views(steps@);
                steps.push(FsStep::CheckWritable);
                steps.push(FsStep::Own);
                assert(step_views(steps@) =~= before.push(StepView::CheckWritable).push(
                    StepView::Own,
                ));
                Ok(steps)
            },
            None => Err(FsRefusal::IsDirectory),
        }
    }

    /// The steps to what is to be looked at, the link itself where it is one. Without any
    /// it is the home.
    pub fn metadata(&self, rel: &str) -> (r: Vec<FsStep>)
        ensures
            step_views(r@) == (if names_of(rel@).len() > 0 {
                opening(rel@, false, OpenMode::PathOnly)
            } else {
                Seq::empty()
            }),
    {
        match self.open_last(rel, false, OpenMode::PathOnly) {
            Some(steps) => steps,
            None => {
                let none: Vec<FsStep> = Vec::new();
                assert(step_views(none@) =~= Seq::<StepView>::empty());
                none
            },
        }
    }

    /// The steps to the directory that is to be listed. Without any it is the home.
    pub fn list(&self, rel: &str) -> (r: Vec<FsStep>)
        ensures
            step_views(r@) == (if names_of(rel@).len() > 0 {
                opening(rel@, false, OpenMode::Directory)
            } else {
                Seq::empty()
            }),
    {
        match self.open_last(rel, false, OpenMode::Directory) {
            Some(steps) => steps,
            None => {
                let none: Vec<FsStep> = Vec::new();
                assert(step_views(none@) =~= Seq::<StepView>::empty());
                none
            },
        }
    }

    /// The way to what is to be deleted, which is never the home.
    pub fn delete(&self, rel: &str) -> (r: Result<(Vec<FsStep>, String), FsRefusal>)
        ensures
            match r {
                Ok((steps, name)) => names_of(rel@).len() > 0 && name@ == names_of(rel@).last()
                    && step_views(steps@) == descend(names_of(rel@).drop_last(), false),
                Err(e) => names_of(rel@).len() == 0 && e == FsRefusal::HomeItself,
            },
    {
        let Located { steps, name } = self.locate(rel, false);
        match name {
            Some(name) => Ok((steps, name)),
            None => Err(FsRefusal::HomeItself),
        }
    }

    /// The steps that make a directory and those above it that are missing. The home
    /// always exists.
    pub fn mkdir_all(&self, rel: &str) -> (r: Vec<FsStep>)
        ensures
            step_views(r@) == descend(names_of(rel@), true),
    {
        let Located { mut steps, name } = self.locate(rel, true);
        match name {
            Some(name) => {
                push_enter(&mut steps, &name, true);
            },
            None => {
                assert(step_views(steps@) =~= Seq::<StepView>::empty());
            },
        }
        steps
    }
}

/// A step that stays inside the directory that is open: its name is a plain one, and an
/// open follows no link.
pub open spec fn confined(step: StepView) -> bool {
    match step {
        StepView::Mkdir(name) => plain(name),
        StepView::Open(name, mode) => plain(name) && flags_of(mode).no_follow,
        _ => true,
    }
}

proof fn lemma_descend_confined(names: Seq<Seq<char>>, create: bool)
    requires
        forall|i: int| 0 <= i < names.len() ==> plain(#[trigger] names[i]),
    ensures
        forall|i: int|
            0 <= i < descend(names, create).len() ==> confined(#[trigger] descend(names, create)[i]),
    decreases names.len(),
{
    if names.len() > 0 {
        let front = names.drop_last();
        assert forall|i: int| 0 <= i < front.len() implies plain(#[trigger] front[i]) by {
            assert(front[i] == names[i]);
        }
        lemma_descend_confined(front, create);
        assert(names.last() == names[names.len() - 1]);
        let a = descend(front, create);
        let all = descend(names, create);
        assert forall|i: int| 0 <= i < all.len() implies confined(#[trigger] all[i]) by {
            if i < a.len() {
                assert(all[i] == a[i]);
            } else {
                assert(all[i] == enter(names.last(), create)[i - a.len()]);
            }
        }
    }
}

proof fn lemma_names_plain(parts: Seq<Seq<char>>)
    requires
        forall|i: int| 0 <= i < parts.len() ==> !(#[trigger] parts[i]).contains('/'),
    ensures
        forall|i: int| 0 <= i < names_in(parts).len() ==> plain(#[trigger] names_in(parts)[i]),
    decreases parts.len(),
{
    if parts.len() > 0 {
        let front = parts.drop_last();
        assert forall|i: int| 0 <= i < front.len() implies !(#[trigger] front[i]).contains('/') by {
            assert(front[i] == parts[i]);
        }
        lemma_names_plain(front);
        assert(parts.last() == parts[parts.len() - 1]);
        let before = names_in(front);
        let all = names_in(parts);
        assert forall|i: int| 0 <= i < all.len() implies plain(#[trigger] all[i]) by {
            if i < before.len() {
                assert(all[i] == before[i]);
            }
        }
    }
}

/// Whatever path it is given, a walk from the home never leaves it: each of its steps
/// names an entry of the directory that is open, and none follows a link.
pub proof fn law_walk_never_leaves_the_home(path: Seq<char>, create: bool, mode: OpenMode)
    ensures
        forall|i: int|
            0 <= i < descend(names_of(path), create).len() ==> confined(
                #[trigger] descend(names_of(path), create)[i],
            ),
        names_of(path).len() > 0 ==> forall|i: int|
            0 <= i < opening(path, create, mode).len() ==> confined(
                #[trigger] opening(path, create, mode)[i],
            ),
{
    lemma_pieces_free(path);
    lemma_names_plain(pieces(path));
    let names = names_of(path);
    lemma_descend_confined(names, create);
    if names.len() > 0 {
        let front = names.drop_last();
        assert forall|i: int| 0 <= i < front.len() implies plain(#[trigger] front[i]) by {
            assert(front[i] == names[i]);
        }
        lemma_descend_confined(front, create);
        assert(plain(names[names.len() - 1]));
        let a = descend(front, create);
        let all = opening(path, create, mode);
        assert forall|i: int| 0 <= i < all.len() implies confined(#[trigger] all[i]) by {
            if i < a.len() {
                assert(all[i] == a[i]);
            }
        }
    }
}

/// What the server makes in a home belongs to the sandbox: each directory is given to it
/// as soon as it is made and entered, and a file that is written is given to it last.
pub proof fn law_what_is_made_is_given(path: Seq<char>, truncate: bool, i: int)
    ensures
        ({
            let steps = descend(names_of(path), true);
            0 <= i < steps.len() && steps[i] is Mkdir ==> {
                &&& i + 2 < steps.len()
                &&& steps[i + 1] == StepView::Open(steps[i]->Mkdir_0, OpenMode::Directory)
                &&& steps[i + 2] == StepView::Own
            }
        }),
        names_of(path).len() > 0 ==> {
            let steps = writing(path, true, truncate);
            &&& steps[steps.len() - 3] == StepView::Open(
                names_of(path).last(),
                OpenMode::Write { truncate },
            )
            &&& steps[steps.len() - 2] == StepView::CheckWritable
            &&& steps[steps.len() - 1] == StepView::Own
            &&& (0 <= i < steps.len() && steps[i] is Mkdir ==> {
                &&& i + 2 < steps.len()
                &&& steps[i + 1] == StepView::Open(steps[i]->Mkdir_0, OpenMode::Directory)
                &&& steps[i + 2] == StepView::Own
            })
        },
{
    let names = names_of(path);
    lemma_descend_gives(names, i);
    if names.len() > 0 {
        let front = descend(names.drop_last(), true);
        lemma_descend_gives(names.drop_last(), i);
        let steps = writing(path, true, truncate);
        if 0 <= i < steps.len() && steps[i] is Mkdir {
            assert(i < front.len());
            assert(steps[i] == front[i]);
            assert(steps[i + 1] == front[i + 1]);
            assert(steps[i + 2] == front[i + 2]);
        }
    }
}

proof fn lemma_descend_gives(names: Seq<Seq<char>>, i: int)
    ensures
        ({
            let steps = descend(names, true);
            0 <= i < steps.len() && steps[i] is Mkdir ==> {
                &&& i + 2 < steps.len()
                &&& steps[i + 1] == StepView::Open(steps[i]->Mkdir_0, OpenMode::Directory)
                &&& steps[i + 2] == StepView::Own
            }
        }),
    decreases names.len(),
{
    if names.len() > 0 {
        lemma_descend_gives(names.drop_last(), i);
        let front = descend(names.drop_last(), true);
        let steps = descend(names, true);
        if 0 <= i < front.len() {
            assert(steps[i] == front[i]);
            if steps[i] is Mkdir {
                assert(steps[i + 1] == front[i + 1]);
                assert(steps[i + 2] == front[i + 2]);
            }
        } else if front.len() <= i < steps.len() {
            let own = enter(names.last(), true);
            assert(steps[i] == own[i - front.len()]);
            if steps[i] is Mkdir {
                assert(i == front.len());
                assert(steps[i + 1] == own[1]);
                assert(steps[i + 2] == own[2]);
            }
        }
    }
}

// ---------------------------------------------------------------------------
// What paths and walks are
// ---------------------------------------------------------------------------

/// A name without a slash that is put behind a path and a slash is one more piece of it.
pub proof fn lemma_one_more_piece(path: Seq<char>, name: Seq<char>)
    requires
        !name.contains('/'),
    ensures
        pieces(path + seq!['/'] + name) == pieces(path).push(name),
        pieces(name) == seq![name],
        pieces(path + seq!['/'] + name).drop_last() == pieces(path),
        pieces(path + seq!['/'] + name).last() == name,
{
    lemma_pieces_concat(path, name);
    text::lemma_char_free(name, '/');
    text::lemma_split_whole(name, seq!['/']);
    assert(pieces(path) + seq![name] =~= pieces(path).push(name));
    assert(pieces(path).push(name).drop_last() =~= pieces(path));
}

/// The two names that stand for no entry.
pub proof fn lemma_dots()
    ensures
        "."@ == seq!['.'],
        ".."@ == seq!['.', '.'],
        "."@ != ".."@,
        !"."@.contains('/'),
        !".."@.contains('/'),
{
    reveal_strlit(".");
    reveal_strlit("..");
    assert("."@ =~= seq!['.']);
    assert(".."@ =~= seq!['.', '.']);
    assert("."@.len() == 1 && ".."@.len() == 2);
}

/// What a step of a path does to the path that was made relative: a plain name is added to
/// it; a further slash or `.` changes nothing; and `..` takes the last name back, where there
/// is one.
pub proof fn law_path_is_resolved_step_by_step(path: Seq<char>, name: Seq<char>)
    requires
        plain(name),
    ensures
        settled(pieces(path + seq!['/'] + name)) == settled(pieces(path)).push(name),
        normal_path(path + seq!['/'] + name) == (if normal_path(path).len() == 0 {
            name
        } else {
            normal_path(path) + seq!['/'] + name
        }),
        normal_path(path + seq!['/']) == normal_path(path),
        normal_path(path + seq!['/', '.']) == normal_path(path),
        normal_path(path + seq!['/'] + name + seq!['/', '.', '.']) == normal_path(path),
        normal_path(path).len() == 0 ==> normal_path(path + seq!['/', '.', '.']).len() == 0,
        normal_path(name) == name,
        normal_path(seq!['.', '.']).len() == 0,
        normal_path(seq!['.']).len() == 0,
        normal_path(Seq::empty()).len() == 0,
{
    lemma_dots();
    let slash = seq!['/'];
    let none = Seq::<char>::empty();
    let longer = path + slash + name;
    lemma_one_more_piece(path, name);
    let before = settled(pieces(path));
    law_normalized_is_plain(path);
    assert(settled(pieces(longer)) == before.push(name));
    if before.len() == 0 {
        assert(before =~= Seq::<Seq<char>>::empty());
        assert(text::join(before.push(name), slash) == name);
    } else {
        text::lemma_join_push(before, name, slash);
        assert(plain(before[0]));
        assert(normal_path(path).len() > 0) by {
            if before.len() > 1 {
                assert(text::join(before, slash) == before[0] + slash + text::join(
                    before.skip(1),
                    slash,
                ));
            }
        }
    }
    lemma_one_more_piece(path, none);
    assert(path + slash + none =~= path + slash);
    lemma_one_more_piece(path, "."@);
    assert(path + slash + "."@ =~= path + seq!['/', '.']);
    lemma_one_more_piece(longer, ".."@);
    assert(longer + slash + ".."@ =~= longer + seq!['/', '.', '.']);
    assert(before.push(name).drop_last() =~= before);
    lemma_one_more_piece(path, ".."@);
    assert(path + slash + ".."@ =~= path + seq!['/', '.', '.']);
    lemma_settled_single(name);
    lemma_settled_single("."@);
    lemma_settled_single(".."@);
    lemma_empty_path();
}

proof fn lemma_settled_single(name: Seq<char>)
    requires
        !name.contains('/'),
    ensures
        plain(name) ==> normal_path(name) == name,
        !plain(name) ==> normal_path(name).len() == 0,
{
    text::lemma_char_free(name, '/');
    text::lemma_split_whole(name, seq!['/']);
    let p = pieces(name);
    assert(p == seq![name]);
    assert(p.drop_last() =~= Seq::<Seq<char>>::empty());
    assert(p.last() == name);
    assert(settled(p.drop_last()) =~= Seq::<Seq<char>>::empty());
    if plain(name) {
        assert(settled(p) =~= seq![name]);
    } else {
        assert(settled(p) =~= Seq::<Seq<char>>::empty());
    }
}

proof fn lemma_settled_behind_nothing(parts: Seq<Seq<char>>)
    ensures
        settled(seq![Seq::<char>::empty()] + parts) == settled(parts),
    decreases parts.len(),
{
    let none = Seq::<char>::empty();
    let all = seq![none] + parts;
    if parts.len() == 0 {
        assert(all =~= seq![none]);
        assert(all.last() == none);
        assert(all.drop_last() =~= Seq::<Seq<char>>::empty());
        assert(parts =~= Seq::<Seq<char>>::empty());
    } else {
        lemma_settled_behind_nothing(parts.drop_last());
        assert(all.drop_last() =~= seq![none] + parts.drop_last());
        assert(all.last() == parts.last());
    }
}

/// A path from the root is taken as one from the home.
pub proof fn law_leading_slash_is_dropped(path: Seq<char>)
    ensures
        normal_path(seq!['/'] + path) == normal_path(path),
{
    let none = Seq::<char>::empty();
    text::lemma_split_first(none, '/', path);
    assert(none + seq!['/'] + path =~= seq!['/'] + path);
    lemma_settled_behind_nothing(pieces(path));
}

/// A walk goes through the plain names of a path, in their order, and through nothing else.
pub proof fn law_walk_goes_through_the_names(path: Seq<char>, name: Seq<char>)
    requires
        !name.contains('/'),
    ensures
        plain(name) ==> names_of(path + seq!['/'] + name) == names_of(path) + seq![name],
        !plain(name) ==> names_of(path + seq!['/'] + name) == names_of(path),
        plain(name) ==> names_of(name) == seq![name],
        !plain(name) ==> names_of(name).len() == 0,
        names_of(Seq::empty()).len() == 0,
        plain(name) <==> name.len() > 0 && name != seq!['.'] && name != seq!['.', '.'],
{
    lemma_dots();
    lemma_one_more_piece(path, name);
    assert(names_of(path).push(name) =~= names_of(path) + seq![name]);
    lemma_empty_path();
    let p = pieces(name);
    assert(p.drop_last() =~= Seq::<Seq<char>>::empty());
    assert(p.last() == name);
    assert(names_in(p.drop_last()) =~= Seq::<Seq<char>>::empty());
    if plain(name) {
        assert(names_in(p) =~= seq![name]);
    }
}

/// The components of a path after a step: a name, `..` too, is one more; a further slash or
/// `.` adds none. A path from the root has the root as its first one.
pub proof fn law_components_are_counted_step_by_step(path: Seq<char>, name: Seq<char>)
    requires
        path.len() > 0,
        !name.contains('/'),
    ensures
        name.len() > 0 && name != seq!['.'] ==> components(path + seq!['/'] + name) == components(path)
            + seq![name],
        name.len() == 0 || name == seq!['.'] ==> components(path + seq!['/'] + name) == components(
            path,
        ),
        path[0] == '/' ==> components(path).len() > 0 && components(path)[0] == seq!['/'],
{
    lemma_dots();
    lemma_one_more_piece(path, name);
    lemma_pieces_free(path);
    let longer = path + seq!['/'] + name;
    assert(longer[0] == path[0]);
    assert(pieces(longer)[0] == pieces(path)[0]);
    assert(anchor(longer) == anchor(path));
    if name.len() > 0 && name != seq!['.'] {
        assert(components(longer) =~= components(path) + seq![name]);
    }
}

/// A relative path is put behind a directory with one slash between them; an absolute one
/// stands for itself.
pub proof fn law_joining_puts_one_slash(dir: Seq<char>, rel: Seq<char>)
    ensures
        rel.len() > 0 && rel[0] == '/' ==> joined(dir, rel) == rel,
        (rel.len() == 0 || rel[0] != '/') && dir.len() > 0 && dir.last() != '/' ==> joined(dir, rel)
            == dir + seq!['/'] + rel,
        (rel.len() == 0 || rel[0] != '/') ==> joined(dir + seq!['/'], rel) == dir + seq!['/'] + rel,
        (rel.len() == 0 || rel[0] != '/') ==> joined(Seq::empty(), rel) == rel,
{
    assert((dir + seq!['/']).last() == '/');
    assert(Seq::<char>::empty() + rel =~= rel);
}

/// The text of components is them with a slash between each two, and behind the root without
/// a second one.
pub proof fn law_path_text_joins_components(parts: Seq<Seq<char>>, name: Seq<char>)
    requires
        parts.len() > 0,
    ensures
        path_text(seq![seq!['/']]) == seq!['/'],
        parts[0] == seq!['/'] && parts.len() == 1 ==> path_text(parts.push(name)) == seq!['/'] + name,
        parts[0] != seq!['/'] || parts.len() > 1 ==> path_text(parts.push(name)) == path_text(parts)
            + seq!['/'] + name,
{
    let slash = seq!['/'];
    let root = seq![slash];
    assert(root.skip(1) =~= Seq::<Seq<char>>::empty());
    assert(slash + Seq::<char>::empty() =~= slash);
    let more = parts.push(name);
    assert(more[0] == parts[0]);
    if parts[0] == slash {
        let rest = parts.skip(1);
        assert(more.skip(1) =~= rest.push(name));
        if parts.len() == 1 {
            assert(rest.push(name) =~= seq![name]);
        } else {
            text::lemma_join_push(rest, name, slash);
            assert(path_text(more) =~= path_text(parts) + slash + name);
        }
    } else {
        text::lemma_join_push(parts, name, slash);
    }
}

/// A walk that makes nothing opens the directories one after the other; one that makes them
/// makes each, opens it and gives it to the sandbox before it goes on to the next.
pub proof fn law_walk_opens_each_directory(names: Seq<Seq<char>>, i: int)
    ensures
        descend(names, false).len() == names.len(),
        0 <= i < names.len() ==> descend(names, false)[i] == StepView::Open(
            names[i],
            OpenMode::Directory,
        ),
        descend(names, true).len() == 3 * names.len(),
        0 <= i < names.len() ==> descend(names, true)[3 * i] == StepView::Mkdir(names[i]),
        0 <= i < names.len() ==> descend(names, true)[3 * i + 1] == StepView::Open(
            names[i],
            OpenMode::Directory,
        ),
        0 <= i < names.len() ==> descend(names, true)[3 * i + 2] == StepView::Own,
    decreases names.len(),
{
    if names.len() > 0 {
        let front = names.drop_last();
        law_walk_opens_each_directory(front, i);
        let a = descend(names, false);
        let b = descend(names, true);
        let n = front.len() as int;
        if 0 <= i < n {
            assert(front[i] == names[i]);
            assert(a[i] == descend(front, false)[i]);
            assert(b[3 * i] == descend(front, true)[3 * i]);
            assert(b[3 * i + 1] == descend(front, true)[3 * i + 1]);
            assert(b[3 * i + 2] == descend(front, true)[3 * i + 2]);
        } else if i == n {
            let last = enter(names.last(), true);
            assert(a[i] == enter(names.last(), false)[0]);
            assert(b[3 * i] == last[0]);
            assert(b[3 * i + 1] == last[1]);
            assert(b[3 * i + 2] == last[2]);
        }
    }
}

/// What an operation opens in the end is the last name of its path, as what it asks for, in
/// the directory that the names before it lead to; what is read is checked before it is used,
/// and what is written is checked and then given to the sandbox.
pub proof fn law_operation_ends_at_the_last_name(
    path: Seq<char>,
    create: bool,
    mode: OpenMode,
    truncate: bool,
)
    requires
        names_of(path).len() > 0,
    ensures
        opening(path, create, mode).last() == StepView::Open(names_of(path).last(), mode),
        opening(path, create, mode).drop_last() == descend(names_of(path).drop_last(), create),
        reading(path).last() == StepView::CheckReadable,
        reading(path).drop_last() == opening(path, false, OpenMode::Read),
        writing(path, create, truncate) == opening(path, create, OpenMode::Write { truncate }) + seq![
            StepView::CheckWritable,
            StepView::Own,
        ],
{
    assert(writing(path, create, truncate) =~= opening(path, create, OpenMode::Write { truncate })
        + seq![StepView::CheckWritable, StepView::Own]);
    let o = opening(path, create, mode);
    assert(o.drop_last() =~= descend(names_of(path).drop_last(), create));
    assert(reading(path).drop_last() =~= opening(path, false, OpenMode::Read));
}

/// Every open keeps the descriptor from children, does not wait and follows no link, and asks
/// for writing, making, emptying, a directory or a bare name only where its mode says so.
pub proof fn law_opens_ask_for_what_they_need(mode: OpenMode, truncate: bool)
    ensures
        flags_of(mode).no_follow && flags_of(mode).close_on_exec && flags_of(mode).non_blocking,
        flags_of(OpenMode::Read) == (OpenFlags {
            write: false,
            create: false,
            truncate: false,
            directory: false,
            path_only: false,
            no_follow: true,
            close_on_exec: true,
            non_blocking: true,
        }),
        flags_of(OpenMode::Directory) == (OpenFlags { directory: true, ..flags_of(OpenMode::Read) }),
        flags_of(OpenMode::PathOnly) == (OpenFlags { path_only: true, ..flags_of(OpenMode::Read) }),
        flags_of(OpenMode::Write { truncate }) == (OpenFlags {
            write: true,
            create: true,
            truncate,
            ..flags_of(OpenMode::Read)
        }),
        DIR_MODE == 448,
        FILE_MODE == 384,
{
}

/// A run of steps denotes each of them, in its place.
pub proof fn law_steps_denote_themselves(v: Seq<FsStep>, i: int, name: String, mode: OpenMode)
    ensures
        step_views(v).len() == v.len(),
        0 <= i < v.len() ==> step_views(v)[i] == v[i]@,
        FsStep::Mkdir(name)@ == StepView::Mkdir(name@),
        FsStep::Open(name, mode)@ == StepView::Open(name@, mode),
        FsStep::CheckReadable@ == StepView::CheckReadable,
        FsStep::CheckWritable@ == StepView::CheckWritable,
        FsStep::Own@ == StepView::Own,
{
}

/// The marked positions are those whose mark is the wanted one, each once and in order.
pub proof fn law_marked_positions(marks: Seq<bool>, wanted: bool, i: usize)
    requires
        marks.len() <= usize::MAX,
    ensures
        marked(marks, wanted).contains(i) <==> i < marks.len() && marks[i as int] == wanted,
        forall|a: int, b: int|
            0 <= a < b < marked(marks, wanted).len() ==> (#[trigger] marked(marks, wanted)[a]) < (
            #[trigger] marked(marks, wanted)[b]),
    decreases marks.len(),
{
    if marks.len() > 0 {
        let front = marks.drop_last();
        let f = marked(front, wanted);
        let m = marked(marks, wanted);
        let n = (marks.len() - 1) as usize;
        law_marked_positions(front, wanted, i);
        assert forall|k: int| 0 <= k < f.len() implies (#[trigger] f[k]) < n by {
            law_marked_positions(front, wanted, f[k]);
            assert(f.contains(f[k]));
        }
        if marks.last() == wanted {
            assert(m == f.push(n));
            assert(m[f.len() as int] == n);
            if f.contains(i) {
                let k = choose|k: int| 0 <= k < f.len() && f[k] == i;
                assert(m[k] == i);
            }
            if m.contains(i) && i != n {
                let k = choose|k: int| 0 <= k < m.len() && m[k] == i;
                assert(f[k] == i);
                assert(f.contains(i));
            }
            if i == n {
                assert(m.contains(i));
            }
        }
        if i < n {
            assert(front[i as int] == marks[i as int]);
        }
    }
}

/// What the refusals of a walk say.
pub proof fn law_refused_walks_have_their_messages()
    ensures
        FsRefusal::IsDirectory.text() is None,
        FsRefusal::NotRegular.text() == Some("not a regular file"@),
        FsRefusal::HomeItself.text() == Some("cannot delete the sandbox home"@),
{
}

/// The components of a path that is one piece: the piece itself, with `.` standing for where
/// the path starts; an empty path has none, and a slash is the root.
pub proof fn law_components_of_one_piece(name: Seq<char>)
    requires
        name.len() > 0,
        !name.contains('/'),
    ensures
        components(name) == seq![name],
        components(Seq::empty()).len() == 0,
        components(seq!['/']) == seq![seq!['/']],
        components(seq!['/'] + name) == (if name == seq!['.'] {
            seq![seq!['/']]
        } else {
            seq![seq!['/'], name]
        }),
{
    lemma_dots();
    lemma_empty_path();
    let none = Seq::<char>::empty();
    let slash = seq!['/'];
    lemma_one_more_piece(none, name);
    assert(none + slash + name =~= slash + name);
    lemma_one_more_piece(none, none);
    assert(none + slash + none =~= slash);
    let p = pieces(name);
    assert(p.drop_last() =~= Seq::<Seq<char>>::empty());
    assert(p.last() == name && p[0] == name);
    assert(solid(p.drop_last()) =~= Seq::<Seq<char>>::empty());
    assert(name[0] != '/') by {
        assert(name.contains(name[0]));
    }
    assert(components(name) =~= seq![name]);
    assert(pieces(none)[0].len() == 0);
    assert(components(none) =~= Seq::<Seq<char>>::empty());
    assert(slash[0] == '/' && (slash + name)[0] == '/');
    assert(components(slash) =~= seq![slash]);
    if name == seq!['.'] {
        assert(components(slash + name) =~= seq![slash]);
    } else {
        assert(components(slash + name) =~= seq![slash, name]);
    }
}

/// A plain name is one that is not empty, is neither `.` nor `..`, and holds no slash.
pub proof fn law_plain_names(name: Seq<char>)
    ensures
        plain(name) <==> name.len() > 0 && name != seq!['.'] && name != seq!['.', '.'] && (forall|i: int|
            0 <= i < name.len() ==> #[trigger] name[i] != '/'),
{
    lemma_dots();
    if name.contains('/') {
        let i = choose|i: int| 0 <= i < name.len() && name[i] == '/';
        assert(name[i] == '/');
    }
}

} // verus!
