//! What the server reads out of `/proc` and `/etc/passwd`: which uids are in use, and
//! which processes run under one.

use vstd::prelude::*;

use crate::number;
use crate::number::{parse_signed, parse_unsigned};
use crate::text;
use crate::text::{chars_are, chars_of, copy_of, split_chars};

verus! {

/// First uid that is handed out. It stays above the uids that images use for their
/// service accounts.
pub const UID_BASE: u32 = 20_000;

/// The end of the range: a container may map the uids below 65535 only.
pub const UID_MAX: u32 = 65_000;

/// Whether a uid is one of those that sandboxes get.
pub open spec fn in_range(uid: int) -> bool {
    UID_BASE <= uid < UID_MAX
}

// ---------------------------------------------------------------------------
// Lines and words
// ---------------------------------------------------------------------------

/// A line without the carriage return that ends it.
pub open spec fn without_return(line: Seq<char>) -> Seq<char> {
    if line.len() > 0 && line.last() == '\r' {
        line.drop_last()
    } else {
        line
    }
}

/// The lines that end with a line feed.
pub open spec fn ended_lines(parts: Seq<Seq<char>>) -> Seq<Seq<char>> {
    Seq::new((parts.len() - 1) as nat, |i: int| without_return(parts[i]))
}

/// The lines of a text. What follows the last line feed is a line when it is not empty.
pub open spec fn lines_of(s: Seq<char>) -> Seq<Seq<char>> {
    let parts = text::split(s, seq!['\n']);
    if parts.last().len() > 0 {
        ended_lines(parts).push(parts.last())
    } else {
        ended_lines(parts)
    }
}

/// Splits a text into its lines.
pub fn split_lines(s: &str) -> (r: Vec<Vec<char>>)
    ensures
        text::rows(r@) == lines_of(s@),
{
    let chars = chars_of(s);
    let feed: [char; 1] = ['\n'];
    assert(feed@ =~= seq!['\n']);
    let parts = split_chars(chars.as_slice(), feed.as_slice());
    let ghost all = text::rows(parts@);
    let n: usize = parts.len();
    let mut r: Vec<Vec<char>> = Vec::new();
    let mut i: usize = 0;
    while i < n - 1
        invariant
            n == parts@.len(),
            n > 0,
            i <= n - 1,
            all == text::rows(parts@),
            r@.len() == i,
            forall|j: int| 0 <= j < i ==> (#[trigger] r@[j])@ == without_return(all[j]),
        decreases n - i,
    {
        let line = parts[i].as_slice();
        let m: usize = line.len();
        assert(line@ == all[i as int]);
        let kept = if m > 0 && line[m - 1] == '\r' {
            copy_of(line, 0, m - 1)
        } else {
            copy_of(line, 0, m)
        };
        assert(kept@ =~= without_return(all[i as int]));
        r.push(kept);
        i += 1;
    }
    assert(text::rows(r@) =~= ended_lines(all));
    let last = parts[n - 1].as_slice();
    assert(last@ == all.last());
    if last.len() > 0 {
        let ghost before = r@;
        let kept = copy_of(last, 0, last.len());
        assert(kept@ =~= last@);
        r.push(kept);
        assert(text::rows(r@) =~= text::rows(before).push(all.last()));
    }
    r
}

/// Whether a character is white space.
pub open spec fn is_white(c: char) -> bool {
    ||| ('\t' <= c && c <= '\r')
    ||| c == ' '
    ||| c == '\u{85}'
    ||| c == '\u{a0}'
    ||| c == '\u{1680}'
    ||| ('\u{2000}' <= c && c <= '\u{200a}')
    ||| c == '\u{2028}'
    ||| c == '\u{2029}'
    ||| c == '\u{202f}'
    ||| c == '\u{205f}'
    ||| c == '\u{3000}'
}

fn white(c: char) -> (r: bool)
    ensures
        r == is_white(c),
{
    ('\t' <= c && c <= '\r') || c == ' ' || c == '\u{85}' || c == '\u{a0}' || c == '\u{1680}' || (
    '\u{2000}' <= c && c <= '\u{200a}') || c == '\u{2028}' || c == '\u{2029}' || c == '\u{202f}' || c
        == '\u{205f}' || c == '\u{3000}'
}

/// How many characters come before the first white space.
pub open spec fn word_len(s: Seq<char>) -> nat
    decreases s.len(),
{
    if s.len() == 0 || is_white(s[0]) {
        0
    } else {
        1 + word_len(s.skip(1))
    }
}

/// A word is no longer than the text, and not empty where the text begins with it.
pub proof fn lemma_word_len(s: Seq<char>)
    ensures
        word_len(s) <= s.len(),
        s.len() > 0 && !is_white(s[0]) ==> word_len(s) > 0,
    decreases s.len(),
{
    if s.len() > 0 && !is_white(s[0]) {
        lemma_word_len(s.skip(1));
    }
}

/// The words of a text: what stands between white space.
pub open spec fn words(s: Seq<char>) -> Seq<Seq<char>>
    decreases s.len(),
{
    if s.len() == 0 {
        Seq::empty()
    } else if is_white(s[0]) {
        words(s.skip(1))
    } else {
        proof {
            lemma_word_len(s);
        }
        seq![s.take(word_len(s) as int)] + words(s.skip(word_len(s) as int))
    }
}

fn word_end(s: &[char], from: usize) -> (r: usize)
    requires
        from <= s@.len(),
    ensures
        from <= r <= s@.len(),
        r - from == word_len(s@.skip(from as int)),
{
    let n: usize = s.len();
    let mut i: usize = from;
    while i < n && !white(s[i])
        invariant
            from <= i <= n,
            n == s@.len(),
            word_len(s@.skip(from as int)) == (i - from) + word_len(s@.skip(i as int)),
        decreases n - i,
    {
        assert(s@.skip(i as int)[0] == s@[i as int]);
        assert(s@.skip(i as int).skip(1) =~= s@.skip(i + 1));
        i += 1;
    }
    proof {
        if i < n {
            assert(s@.skip(i as int)[0] == s@[i as int]);
        }
    }
    i
}

/// Splits a text into its words.
pub fn split_words(s: &[char]) -> (r: Vec<Vec<char>>)
    ensures
        text::rows(r@) == words(s@),
{
    let n: usize = s.len();
    let mut r: Vec<Vec<char>> = Vec::new();
    let mut i: usize = 0;
    assert(s@.skip(0) =~= s@);
    assert(text::rows(r@) + words(s@) =~= words(s@));
    while i < n
        invariant
            i <= n,
            n == s@.len(),
            text::rows(r@) + words(s@.skip(i as int)) == words(s@),
        decreases n - i,
    {
        let ghost rest = s@.skip(i as int);
        assert(rest[0] == s@[i as int]);
        if white(s[i]) {
            assert(rest.skip(1) =~= s@.skip(i + 1));
            i += 1;
        } else {
            let ghost before = text::rows(r@);
            let end = word_end(s, i);
            proof {
                lemma_word_len(rest);
            }
            let word = copy_of(s, i, end);
            assert(word@ =~= rest.take(end - i));
            assert(rest.skip(end - i) =~= s@.skip(end as int));
            r.push(word);
            assert(text::rows(r@) =~= before + seq![rest.take(end - i)]);
            assert(text::rows(r@) + words(s@.skip(end as int)) =~= before + words(rest));
            i = end;
        }
    }
    assert(words(s@.skip(i as int)) =~= Seq::<Seq<char>>::empty());
    assert(text::rows(r@) =~= words(s@));
    r
}

// ---------------------------------------------------------------------------
// Processes
// ---------------------------------------------------------------------------

/// One entry of `/proc`: the name of its directory and the text of its status.
pub struct ProcInfo {
    pub name: String,
    pub status: String,
}

/// What an entry of `/proc` denotes.
pub struct ProcView {
    pub name: Seq<char>,
    pub status: Seq<char>,
}

impl View for ProcInfo {
    type V = ProcView;

    open spec fn view(&self) -> ProcView {
        ProcView { name: self.name@, status: self.status@ }
    }
}

/// What a listing of `/proc` denotes.
pub open spec fn proc_views(v: Seq<ProcInfo>) -> Seq<ProcView> {
    Seq::new(v.len(), |i: int| v[i]@)
}

/// Whether a text begins with another.
pub open spec fn begins(s: Seq<char>, prefix: Seq<char>) -> bool {
    s.len() >= prefix.len() && s.take(prefix.len() as int) == prefix
}

/// The second word of the first line, from line `i` on, that begins with `prefix`.
pub open spec fn field_from(lines: Seq<Seq<char>>, prefix: Seq<char>, i: int) -> Option<Seq<char>>
    decreases lines.len() - i,
{
    if i < 0 || i >= lines.len() {
        None
    } else if begins(lines[i], prefix) {
        if words(lines[i]).len() > 1 {
            Some(words(lines[i])[1])
        } else {
            None
        }
    } else {
        field_from(lines, prefix, i + 1)
    }
}

/// The second word of the first line of a status that begins with `prefix`.
pub open spec fn field(status: Seq<char>, prefix: Seq<char>) -> Option<Seq<char>> {
    field_from(lines_of(status), prefix, 0)
}

/// The real uid in the status of a process.
pub open spec fn real_uid(status: Seq<char>) -> Option<nat> {
    match field(status, "Uid:"@) {
        Some(word) => number::read_unsigned(word, 10, u32::MAX as nat),
        None => None,
    }
}

/// Whether the status is that of a zombie: an exit status that waits to be collected. It
/// holds nothing and cannot be killed.
pub open spec fn is_zombie(status: Seq<char>) -> bool {
    field(status, "State:"@) == Some("Z"@)
}

/// Whether an entry of `/proc` is a live process under a uid.
pub open spec fn runs_under(p: ProcView, uid: u32) -> bool {
    &&& number::read_signed(p.name) is Some
    &&& real_uid(p.status) == Some(uid as nat)
    &&& !is_zombie(p.status)
}

/// The pids of the live processes under a uid.
pub open spec fn pids_under(procs: Seq<ProcView>, uid: u32) -> Seq<i32>
    decreases procs.len(),
{
    if procs.len() == 0 {
        Seq::empty()
    } else if runs_under(procs.last(), uid) {
        pids_under(procs.drop_last(), uid).push(number::read_signed(procs.last().name)->0 as i32)
    } else {
        pids_under(procs.drop_last(), uid)
    }
}

fn line_begins(line: &[char], prefix: &str) -> (r: bool)
    ensures
        r == begins(line@, prefix@),
{
    let wanted = chars_of(prefix);
    let n: usize = wanted.len();
    if line.len() < n {
        return false;
    }
    let head = copy_of(line, 0, n);
    assert(head@ =~= line@.take(n as int));
    chars_are(head.as_slice(), prefix)
}

/// Reads the second word of the first line that begins with `prefix`.
fn read_field(status: &str, prefix: &str) -> (r: Option<Vec<char>>)
    ensures
        match r {
            Some(w) => field(status@, prefix@) == Some(w@),
            None => field(status@, prefix@) is None,
        },
{
    let lines = split_lines(status);
    let ghost all = text::rows(lines@);
    let mut i: usize = 0;
    while i < lines.len()
        invariant
            i <= lines@.len(),
            all == text::rows(lines@),
            all == lines_of(status@),
            field(status@, prefix@) == field_from(all, prefix@, i as int),
        decreases lines@.len() - i,
    {
        let line = lines[i].as_slice();
        assert(line@ == all[i as int]);
        if line_begins(line, prefix) {
            let mut ws = split_words(line);
            let ghost found = text::rows(ws@);
            if ws.len() > 1 {
                assert(found[1] == ws@[1]@);
                let word = ws.swap_remove(1);
                return Some(word);
            }
            return None;
        }
        i += 1;
    }
    None
}

/// Reads the real uid out of the status of a process.
pub fn read_real_uid(status: &str) -> (r: Option<u32>)
    ensures
        match r {
            Some(uid) => real_uid(status@) == Some(uid as nat),
            None => real_uid(status@) is None,
        },
{
    match read_field(status, "Uid:") {
        Some(word) => match parse_unsigned(word.as_slice(), 10, u32::MAX as u64) {
            Some(n) => {
                assert(n <= u32::MAX);
                Some(n as u32)
            },
            None => None,
        },
        None => None,
    }
}

/// Reads out of the status of a process whether it is a zombie.
pub fn read_zombie(status: &str) -> (r: bool)
    ensures
        r == is_zombie(status@),
{
    match read_field(status, "State:") {
        Some(word) => chars_are(word.as_slice(), "Z"),
        None => false,
    }
}

fn read_pid(name: &str) -> (r: Option<i32>)
    ensures
        match r {
            Some(n) => number::read_signed(name@) == Some(n as int),
            None => number::read_signed(name@) is None,
        },
{
    let chars = chars_of(name);
    parse_signed(chars.as_slice())
}

/// The live processes under a uid. Zombies do not count: they cannot be killed, so a
/// sweep that counted them would never come to an end.
pub fn pids_of_uid(procs: &Vec<ProcInfo>, uid: u32) -> (r: Vec<i32>)
    ensures
        r@ == pids_under(proc_views(procs@), uid),
{
    let ghost all = proc_views(procs@);
    let mut pids: Vec<i32> = Vec::new();
    let mut i: usize = 0;
    assert(all.take(0) =~= Seq::<ProcView>::empty());
    while i < procs.len()
        invariant
            i <= procs@.len(),
            all == proc_views(procs@),
            pids@ == pids_under(all.take(i as int), uid),
        decreases procs@.len() - i,
    {
        let p = &procs[i];
        proof {
            assert(all.take(i + 1).drop_last() =~= all.take(i as int));
            assert(all.take(i + 1).last() == p@);
        }
        match read_pid(p.name.as_str()) {
            Some(pid) => {
                let under = match read_real_uid(p.status.as_str()) {
                    Some(u) => u == uid,
                    None => false,
                };
                if under && !read_zombie(p.status.as_str()) {
                    pids.push(pid);
                }
            },
            None => {},
        }
        i += 1;
    }
    assert(all.take(all.len() as int) =~= all);
    pids
}

// ---------------------------------------------------------------------------
// Uids in use
// ---------------------------------------------------------------------------

/// The uid in a line of `/etc/passwd`, when it is one of those that sandboxes get.
pub open spec fn passwd_uid(line: Seq<char>) -> Option<nat> {
    let fields = text::split(line, seq![':']);
    if fields.len() > 2 {
        match number::read_unsigned(fields[2], 10, u32::MAX as nat) {
            Some(n) => if in_range(n as int) {
                Some(n)
            } else {
                None
            },
            None => None,
        }
    } else {
        None
    }
}

/// The uids of sandboxes that the lines of `/etc/passwd` name.
pub open spec fn passwd_uids(lines: Seq<Seq<char>>) -> Seq<u32>
    decreases lines.len(),
{
    if lines.len() == 0 {
        Seq::empty()
    } else {
        match passwd_uid(lines.last()) {
            Some(n) => passwd_uids(lines.drop_last()).push(n as u32),
            None => passwd_uids(lines.drop_last()),
        }
    }
}

/// The uid under which an entry of `/proc` runs, when it is one of those that sandboxes
/// get. A zombie counts here.
pub open spec fn proc_uid(p: ProcView) -> Option<nat> {
    if number::read_signed(p.name) is Some {
        match real_uid(p.status) {
            Some(n) => if in_range(n as int) {
                Some(n)
            } else {
                None
            },
            None => None,
        }
    } else {
        None
    }
}

/// The uids in `used`, and behind them each further one under which a process runs.
pub open spec fn with_proc_uids(used: Seq<u32>, procs: Seq<ProcView>) -> Seq<u32>
    decreases procs.len(),
{
    if procs.len() == 0 {
        used
    } else {
        let before = with_proc_uids(used, procs.drop_last());
        match proc_uid(procs.last()) {
            Some(n) => if before.contains(n as u32) {
                before
            } else {
                before.push(n as u32)
            },
            None => before,
        }
    }
}

/// The uids of sandboxes that the image uses already: those that `/etc/passwd` names,
/// and those under which a process runs.
pub open spec fn uids_in_use(passwd: Seq<char>, procs: Seq<ProcView>) -> Seq<u32> {
    with_proc_uids(passwd_uids(lines_of(passwd)), procs)
}

/// Whether a uid stands in a list.
pub fn lists_uid(list: &Vec<u32>, uid: u32) -> (r: bool)
    ensures
        r == list@.contains(uid),
{
    let mut i: usize = 0;
    while i < list.len()
        invariant
            i <= list@.len(),
            forall|j: int| 0 <= j < i ==> list@[j] != uid,
        decreases list@.len() - i,
    {
        if list[i] == uid {
            return true;
        }
        i += 1;
    }
    false
}

fn read_passwd_uid(line: &[char]) -> (r: Option<u32>)
    ensures
        match r {
            Some(uid) => passwd_uid(line@) == Some(uid as nat),
            None => passwd_uid(line@) is None,
        },
{
    let colon: [char; 1] = [':'];
    assert(colon@ =~= seq![':']);
    let fields = split_chars(line, colon.as_slice());
    let ghost all = text::rows(fields@);
    if fields.len() > 2 {
        assert(all[2] == fields@[2]@);
        match parse_unsigned(fields[2].as_slice(), 10, u32::MAX as u64) {
            Some(n) => {
                assert(n <= u32::MAX);
                if n >= UID_BASE as u64 && n < UID_MAX as u64 {
                    Some(n as u32)
                } else {
                    None
                }
            },
            None => None,
        }
    } else {
        None
    }
}

/// The uids of sandboxes that the image uses already. A sandbox under one of them would
/// share it with something else.
pub fn uids_already_in_use(passwd: &str, procs: &Vec<ProcInfo>) -> (r: Vec<u32>)
    ensures
        r@ == uids_in_use(passwd@, proc_views(procs@)),
{
    let lines = split_lines(passwd);
    let ghost ls = text::rows(lines@);
    let mut used: Vec<u32> = Vec::new();
    let mut i: usize = 0;
    assert(ls.take(0) =~= Seq::<Seq<char>>::empty());
    while i < lines.len()
        invariant
            i <= lines@.len(),
            ls == text::rows(lines@),
            used@ == passwd_uids(ls.take(i as int)),
        decreases lines@.len() - i,
    {
        proof {
            assert(ls.take(i + 1).drop_last() =~= ls.take(i as int));
            assert(ls.take(i + 1).last() == lines@[i as int]@);
        }
        match read_passwd_uid(lines[i].as_slice()) {
            Some(uid) => {
                used.push(uid);
            },
            None => {},
        }
        i += 1;
    }
    assert(ls.take(ls.len() as int) =~= ls);
    let ghost named = used@;
    let ghost all = proc_views(procs@);
    let mut j: usize = 0;
    assert(all.take(0) =~= Seq::<ProcView>::empty());
    while j < procs.len()
        invariant
            j <= procs@.len(),
            all == proc_views(procs@),
            used@ == with_proc_uids(named, all.take(j as int)),
        decreases procs@.len() - j,
    {
        let p = &procs[j];
        proof {
            assert(all.take(j + 1).drop_last() =~= all.take(j as int));
            assert(all.take(j + 1).last() == p@);
        }
        if read_pid(p.name.as_str()).is_some() {
            match read_real_uid(p.status.as_str()) {
                Some(uid) => {
                    if uid >= UID_BASE && uid < UID_MAX && !lists_uid(&used, uid) {
                        used.push(uid);
                    }
                },
                None => {},
            }
        }
        j += 1;
    }
    assert(all.take(all.len() as int) =~= all);
    used
}

// ---------------------------------------------------------------------------
// What lines, words and entries say
// ---------------------------------------------------------------------------

/// A line ends at a line feed, before which a carriage return is dropped; what follows is
/// read as it is alone; and what stands behind the last line feed is a line when there is
/// anything.
pub proof fn law_lines_end_at_line_feeds(line: Seq<char>, rest: Seq<char>)
    requires
        !line.contains('\n'),
    ensures
        lines_of(Seq::empty()).len() == 0,
        line.len() > 0 ==> lines_of(line) == seq![line],
        (line.len() == 0 || line.last() != '\r') ==> lines_of(line + seq!['\n'] + rest) == seq![line]
            + lines_of(rest),
        line.len() > 0 && line.last() == '\r' ==> lines_of(line + seq!['\n'] + rest) == seq![
            line.drop_last(),
        ] + lines_of(rest),
{
    let none = Seq::<char>::empty();
    text::lemma_char_free(none, '\n');
    text::lemma_split_whole(none, seq!['\n']);
    text::lemma_char_free(line, '\n');
    text::lemma_split_whole(line, seq!['\n']);
    assert(text::split(line, seq!['\n']).last() == line);
    assert(text::split(none, seq!['\n']).last() == none);
    if line.len() > 0 {
        assert(lines_of(line) =~= seq![line]);
    }
    text::lemma_split_first(line, '\n', rest);
    text::lemma_split_free(rest, seq!['\n'], 0);
    let parts = text::split(rest, seq!['\n']);
    let all = text::split(line + seq!['\n'] + rest, seq!['\n']);
    assert(all == seq![line] + parts);
    assert(all.last() == parts.last());
    assert(ended_lines(all) =~= seq![without_return(line)] + ended_lines(parts));
    assert(lines_of(line + seq!['\n'] + rest) =~= seq![without_return(line)] + lines_of(rest));
}

/// White space, by the codes of its characters.
pub proof fn law_white_space(c: char)
    ensures
        is_white(c) <==> {
            let n = c as u32;
            9 <= n <= 13 || n == 32 || n == 133 || n == 160 || n == 5760 || 8192 <= n <= 8202 || n
                == 8232 || n == 8233 || n == 8239 || n == 8287 || n == 12288
        },
{
}

proof fn lemma_word_is_taken(w: Seq<char>, rest: Seq<char>)
    requires
        forall|i: int| 0 <= i < w.len() ==> !is_white(#[trigger] w[i]),
        rest.len() == 0 || is_white(rest[0]),
    ensures
        word_len(w + rest) == w.len(),
    decreases w.len(),
{
    let all = w + rest;
    if w.len() == 0 {
        assert(all =~= rest);
    } else {
        let less = w.skip(1);
        assert forall|i: int| 0 <= i < less.len() implies !is_white(#[trigger] less[i]) by {
            assert(less[i] == w[i + 1]);
        }
        lemma_word_is_taken(less, rest);
        assert(all[0] == w[0]);
        assert(all.skip(1) =~= less + rest);
    }
}

/// A word is what stands without white space before white space or the end; white space
/// before a word is passed over, and what follows a word is read as it is alone.
pub proof fn law_words_stand_between_white_space(w: Seq<char>, c: char, rest: Seq<char>)
    requires
        w.len() > 0,
        forall|i: int| 0 <= i < w.len() ==> !is_white(#[trigger] w[i]),
        is_white(c),
    ensures
        words(Seq::empty()).len() == 0,
        words(seq![c] + rest) == words(rest),
        words(w) == seq![w],
        words(w + seq![c] + rest) == seq![w] + words(rest),
{
    let none = Seq::<char>::empty();
    let blank = seq![c] + rest;
    assert(blank[0] == c);
    assert(blank.skip(1) =~= rest);
    assert(w[0] == w[0] && !is_white(w[0]));
    lemma_word_is_taken(w, none);
    assert(w + none =~= w);
    assert(w.take(w.len() as int) =~= w);
    assert(w.skip(w.len() as int) =~= none);
    assert(words(none) =~= Seq::<Seq<char>>::empty());
    assert(words(w) =~= seq![w]);
    lemma_word_is_taken(w, blank);
    let all = w + seq![c] + rest;
    assert(all =~= w + blank);
    assert(all[0] == w[0]);
    assert(all.take(w.len() as int) =~= w);
    assert(all.skip(w.len() as int) =~= blank);
}

proof fn lemma_field_from(lines: Seq<Seq<char>>, prefix: Seq<char>, i: int, k: int)
    requires
        0 <= i <= k < lines.len(),
        begins(lines[k], prefix),
        forall|j: int| i <= j < k ==> !begins(#[trigger] lines[j], prefix),
    ensures
        field_from(lines, prefix, i) == (if words(lines[k]).len() > 1 {
            Some(words(lines[k])[1])
        } else {
            None
        }),
    decreases k - i,
{
    if i < k {
        assert(!begins(lines[i], prefix));
        lemma_field_from(lines, prefix, i + 1, k);
    }
}

proof fn lemma_no_field(lines: Seq<Seq<char>>, prefix: Seq<char>, i: int)
    requires
        0 <= i <= lines.len(),
        forall|j: int| i <= j < lines.len() ==> !begins(#[trigger] lines[j], prefix),
    ensures
        field_from(lines, prefix, i) is None,
    decreases lines.len() - i,
{
    if i < lines.len() {
        assert(!begins(lines[i], prefix));
        lemma_no_field(lines, prefix, i + 1);
    }
}

/// A field of a status is the second word of the first line that begins with its name; without
/// such a line it has none. A text begins with another when it is that text and something
/// behind it.
pub proof fn law_field_is_the_second_word(
    status: Seq<char>,
    prefix: Seq<char>,
    k: int,
    behind: Seq<char>,
)
    ensures
        begins(prefix + behind, prefix),
        0 <= k < lines_of(status).len() && begins(lines_of(status)[k], prefix) && (forall|j: int|
            0 <= j < k ==> !begins(#[trigger] lines_of(status)[j], prefix)) && words(
            lines_of(status)[k],
        ).len() > 1 ==> field(status, prefix) == Some(words(lines_of(status)[k])[1]),
        0 <= k < lines_of(status).len() && begins(lines_of(status)[k], prefix) && (forall|j: int|
            0 <= j < k ==> !begins(#[trigger] lines_of(status)[j], prefix)) && words(
            lines_of(status)[k],
        ).len() <= 1 ==> field(status, prefix) is None,
        (forall|j: int|
            0 <= j < lines_of(status).len() ==> !begins(#[trigger] lines_of(status)[j], prefix))
            ==> field(status, prefix) is None,
        forall|s: Seq<char>| #[trigger]
            begins(s, prefix) ==> s == prefix + s.skip(prefix.len() as int),
{
    assert((prefix + behind).take(prefix.len() as int) =~= prefix);
    let lines = lines_of(status);
    if 0 <= k < lines.len() && begins(lines[k], prefix) && (forall|j: int|
        0 <= j < k ==> !begins(#[trigger] lines[j], prefix)) {
        lemma_field_from(lines, prefix, 0, k);
    }
    if forall|j: int| 0 <= j < lines.len() ==> !begins(#[trigger] lines[j], prefix) {
        lemma_no_field(lines, prefix, 0);
    }
    assert forall|s: Seq<char>| #[trigger] begins(s, prefix) implies s == prefix + s.skip(
        prefix.len() as int,
    ) by {
        assert(s =~= s.take(prefix.len() as int) + s.skip(prefix.len() as int));
    }
}

/// The real uid is the number in the field "Uid:", and a zombie is what has "Z" in the field
/// "State:".
pub proof fn law_status_gives_uid_and_state(status: Seq<char>, uid: u32)
    ensures
        field(status, "Uid:"@) == Some(number::decimal(uid as nat)) ==> real_uid(status) == Some(
            uid as nat,
        ),
        field(status, "Uid:"@) is None ==> real_uid(status) is None,
        field(status, "Uid:"@) matches Some(word) ==> real_uid(status) == number::read_unsigned(
            word,
            10,
            4294967295,
        ),
        field(status, "State:"@) == Some("Z"@) ==> is_zombie(status),
        field(status, "State:"@) != Some("Z"@) ==> !is_zombie(status),
{
    number::law_numeral_reads_back(uid as nat, 10, u32::MAX as nat);
}

/// The live processes under a uid: a further entry adds its pid when its name is a number, its
/// real uid is that uid and it is no zombie, and nothing otherwise.
pub proof fn law_live_processes_of_a_uid(procs: Seq<ProcView>, p: ProcView, uid: u32, pid: i32)
    ensures
        pids_under(Seq::empty(), uid).len() == 0,
        number::read_signed(p.name) == Some(pid as int) && real_uid(p.status) == Some(uid as nat)
            && !is_zombie(p.status) ==> pids_under(procs.push(p), uid) == pids_under(procs, uid)
            + seq![pid],
        number::read_signed(p.name) is None || real_uid(p.status) != Some(uid as nat) || is_zombie(
            p.status,
        ) ==> pids_under(procs.push(p), uid) == pids_under(procs, uid),
{
    assert(procs.push(p).drop_last() =~= procs);
    assert(procs.push(p).last() == p);
    assert(pids_under(procs, uid).push(pid) =~= pids_under(procs, uid) + seq![pid]);
}

/// Sandboxes get uids from 20000 up to and without 65000. A line of `/etc/passwd` names the uid
/// in its third field, and that counts when it is one of those.
pub proof fn law_passwd_names_its_uid(
    name: Seq<char>,
    word: Seq<char>,
    uid: nat,
    rest: Seq<char>,
    lines: Seq<Seq<char>>,
)
    requires
        !name.contains(':'),
        !word.contains(':'),
    ensures
        in_range(uid as int) <==> 20000 <= uid < 65000,
        ({
            let line = name + seq![':'] + (word + seq![':'] + (number::decimal(uid) + seq![':'] + rest));
            &&& 20000 <= uid < 65000 ==> passwd_uid(line) == Some(uid) && passwd_uids(lines.push(line))
                == passwd_uids(lines) + seq![uid as u32]
            &&& !(20000 <= uid < 65000) ==> passwd_uid(line) is None && passwd_uids(lines.push(line))
                == passwd_uids(lines)
        }),
        passwd_uids(Seq::empty()).len() == 0,
        passwd_uid(name + seq![':'] + word) is None,
{
    let number = number::decimal(uid);
    let third = number + seq![':'] + rest;
    let second = word + seq![':'] + third;
    let line = name + seq![':'] + second;
    number::law_numeral_reads_back(uid, 10, uid);
    assert(number::all_digits(number, 10));
    if number.contains(':') {
        let i = choose|i: int| 0 <= i < number.len() && number[i] == ':';
        assert(number::digit_worth(number[i]) < 10);
    }
    text::lemma_split_first(name, ':', second);
    text::lemma_split_first(word, ':', third);
    text::lemma_split_first(number, ':', rest);
    let fields = text::split(line, seq![':']);
    assert(fields[2] == number);
    assert(number[0] != '+') by {
        assert(number::digit_worth(number[0]) < 10);
    }
    assert(lines.push(line).drop_last() =~= lines);
    assert(lines.push(line).last() == line);
    assert(passwd_uids(lines).push(uid as u32) =~= passwd_uids(lines) + seq![uid as u32]);
    text::lemma_split_first(name, ':', word);
    text::lemma_char_free(word, ':');
    text::lemma_split_whole(word, seq![':']);
    assert(text::split(name + seq![':'] + word, seq![':']).len() == 2);
}

/// The uids in use are those that `/etc/passwd` names and those under which any process runs,
/// a zombie too, as far as sandboxes get them.
pub proof fn law_uids_in_use(passwd: Seq<char>, procs: Seq<ProcView>, uid: u32)
    ensures
        uids_in_use(passwd, procs).contains(uid) <==> passwd_uids(lines_of(passwd)).contains(uid) || (
        20000 <= uid < 65000 && exists|i: int|
            0 <= i < procs.len() && number::read_signed((#[trigger] procs[i]).name) is Some && real_uid(
                procs[i].status,
            ) == Some(uid as nat)),
{
    lemma_with_proc_uids(passwd_uids(lines_of(passwd)), procs, uid);
}

proof fn lemma_with_proc_uids(used: Seq<u32>, procs: Seq<ProcView>, uid: u32)
    ensures
        with_proc_uids(used, procs).contains(uid) <==> used.contains(uid) || (20000 <= uid < 65000
            && exists|i: int|
            0 <= i < procs.len() && number::read_signed((#[trigger] procs[i]).name) is Some && real_uid(
                procs[i].status,
            ) == Some(uid as nat)),
    decreases procs.len(),
{
    if procs.len() > 0 {
        let front = procs.drop_last();
        let p = procs.last();
        assert(p == procs[procs.len() - 1]);
        lemma_with_proc_uids(used, front, uid);
        let a = with_proc_uids(used, front);
        let b = with_proc_uids(used, procs);
        if 20000 <= uid < 65000 && exists|i: int|
            0 <= i < procs.len() && number::read_signed((#[trigger] procs[i]).name) is Some && real_uid(
                procs[i].status,
            ) == Some(uid as nat) {
            let i = choose|i: int|
                0 <= i < procs.len() && number::read_signed((#[trigger] procs[i]).name) is Some
                    && real_uid(procs[i].status) == Some(uid as nat);
            if i < front.len() {
                assert(front[i] == procs[i]);
                assert(a.contains(uid));
            } else {
                assert(proc_uid(p) == Some(uid as nat));
            }
        }
        if exists|i: int|
            0 <= i < front.len() && number::read_signed((#[trigger] front[i]).name) is Some && real_uid(
                front[i].status,
            ) == Some(uid as nat) {
            let i = choose|i: int|
                0 <= i < front.len() && number::read_signed((#[trigger] front[i]).name) is Some
                    && real_uid(front[i].status) == Some(uid as nat);
            assert(procs[i] == front[i]);
        }
        match proc_uid(p) {
            Some(n) => {
                if !a.contains(n as u32) {
                    assert(b == a.push(n as u32));
                    assert(b[a.len() as int] == n as u32);
                    if a.contains(uid) {
                        let k = choose|k: int| 0 <= k < a.len() && a[k] == uid;
                        assert(b[k] == uid);
                    }
                    if b.contains(uid) && uid != n as u32 {
                        let k = choose|k: int| 0 <= k < b.len() && b[k] == uid;
                        assert(a[k] == uid);
                    }
                }
            },
            None => {},
        }
    }
}

/// An entry of `/proc` denotes its name and its status.
pub proof fn law_entries_denote_themselves(v: Seq<ProcInfo>, i: int)
    ensures
        proc_views(v).len() == v.len(),
        0 <= i < v.len() ==> proc_views(v)[i].name == v[i].name@ && proc_views(v)[i].status
            == v[i].status@,
        UID_BASE == 20000,
        UID_MAX == 65000,
{
}

/// A line of `/etc/passwd` that has fewer than three fields, or no number in the third, names
/// no uid.
pub proof fn law_passwd_without_a_number_names_nothing(line: Seq<char>)
    ensures
        text::split(line, seq![':']).len() < 3 ==> passwd_uid(line) is None,
        text::split(line, seq![':']).len() >= 3 && number::read_unsigned(
            text::split(line, seq![':'])[2],
            10,
            4294967295,
        ) is None ==> passwd_uid(line) is None,
        text::split(line, seq![':']).len() >= 3 ==> (number::read_unsigned(
            text::split(line, seq![':'])[2],
            10,
            4294967295,
        ) matches Some(n) ==> (20000 <= n < 65000 ==> passwd_uid(line) == Some(n))),
{
}

/// Each further process adds its uid to those in use, behind the others, when it is one of
/// those that sandboxes get and is not there yet, and nothing otherwise.
pub proof fn law_each_process_adds_its_uid(used: Seq<u32>, procs: Seq<ProcView>, p: ProcView, uid: u32)
    ensures
        with_proc_uids(used, Seq::empty()) == used,
        number::read_signed(p.name) is Some && real_uid(p.status) == Some(uid as nat) && 20000 <= uid
            < 65000 && !with_proc_uids(used, procs).contains(uid) ==> with_proc_uids(
            used,
            procs.push(p),
        ) == with_proc_uids(used, procs) + seq![uid],
        number::read_signed(p.name) is Some && real_uid(p.status) == Some(uid as nat)
            && with_proc_uids(used, procs).contains(uid) ==> with_proc_uids(used, procs.push(p))
            == with_proc_uids(used, procs),
        number::read_signed(p.name) is None || real_uid(p.status) is None || !(20000 <= real_uid(
            p.status,
        )->0 < 65000) ==> with_proc_uids(used, procs.push(p)) == with_proc_uids(used, procs),
{
    assert(procs.push(p).drop_last() =~= procs);
    assert(procs.push(p).last() == p);
    let before = with_proc_uids(used, procs);
    assert(before.push(uid) =~= before + seq![uid]);
}

} // verus!
