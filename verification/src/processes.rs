//! Background processes: the registry that lists them, and the pids that the server
//! waits for itself.

use std::collections::HashSet;

use vstd::prelude::*;

use crate::exec;
use crate::exec::{number_doc, opt_text_doc, Cmd, ExecSpec, ExitInfo};
use crate::json;
use crate::json::{list_doc, object_doc, text_doc, Doc};
use crate::number;
use crate::number::write_decimal;
use crate::response;
use crate::response::{object_reply, Reply};
use crate::text::str_eq;

verus! {

/// How many finished processes are kept for each sandbox. Running ones are never dropped.
pub const MAX_FINISHED_PROCS: usize = 256;

/// What is known of a process besides how it was started.
pub struct ProcState {
    /// How it ended, once it did.
    pub exit: Option<ExitInfo>,
}

/// A background process.
pub struct Proc {
    /// The name under which clients know it. Unlike the pid it is never used again.
    pub id: String,
    pub pid: u32,
    pub tag: Option<String>,
    /// The command as the client gave it.
    pub cmd_json: Cmd,
    pub started_at_ms: i64,
    /// The sandbox that it belongs to, on a host.
    pub sandbox_id: Option<String>,
    pub state: ProcState,
}

/// What a background process denotes.
pub struct ProcView {
    pub id: Seq<char>,
    pub pid: u32,
    pub tag: Option<Seq<char>>,
    pub cmd: json::JsonView,
    pub started_at_ms: i64,
    pub sandbox_id: Option<Seq<char>>,
    pub exit: Option<ExitInfo>,
}

impl View for Proc {
    type V = ProcView;

    open spec fn view(&self) -> ProcView {
        ProcView {
            id: self.id@,
            pid: self.pid,
            tag: exec::opt_text(self.tag),
            cmd: self.cmd_json.tree(),
            started_at_ms: self.started_at_ms,
            sandbox_id: exec::opt_text(self.sandbox_id),
            exit: self.state.exit,
        }
    }
}

/// What a run of processes denotes.
pub open spec fn proc_views(v: Seq<Proc>) -> Seq<ProcView> {
    Seq::new(v.len(), |i: int| v[i]@)
}

/// A sandbox that may be missing.
pub open spec fn scope_of(id: Option<&str>) -> Option<Seq<char>> {
    match id {
        Some(s) => Some(s@),
        None => None,
    }
}

/// Whether a process has ended and belongs to the given sandbox, or to none.
pub open spec fn finished_in(p: ProcView, scope: Option<Seq<char>>) -> bool {
    p.exit is Some && p.sandbox_id == scope
}

/// How many processes of a sandbox have ended.
pub open spec fn finished_count(s: Seq<ProcView>, scope: Option<Seq<char>>) -> nat
    decreases s.len(),
{
    if s.len() == 0 {
        0
    } else if finished_in(s[0], scope) {
        finished_count(s.skip(1), scope) + 1
    } else {
        finished_count(s.skip(1), scope)
    }
}

/// Whether a process goes, given those that came after it: it has ended, and so have as
/// many later ones of its sandbox as are kept.
pub open spec fn outlived(p: ProcView, later: Seq<ProcView>) -> bool {
    p.exit is Some && finished_count(later, p.sandbox_id) >= MAX_FINISHED_PROCS
}

/// The processes that stay, in their order: those that run, and of those that have ended
/// the newest of each sandbox.
pub open spec fn pruned(s: Seq<ProcView>) -> Seq<ProcView>
    decreases s.len(),
{
    if s.len() == 0 {
        Seq::empty()
    } else if outlived(s[0], s.skip(1)) {
        pruned(s.skip(1))
    } else {
        seq![s[0]] + pruned(s.skip(1))
    }
}

/// The processes after one was added. Of those of a sandbox that have ended, the oldest go
/// when there are too many.
pub open spec fn inserted(s: Seq<ProcView>, p: ProcView) -> Seq<ProcView> {
    pruned(s.push(p))
}

/// Whether a process is the one that a client names, within a sandbox where one is given.
pub open spec fn is_named(p: ProcView, id: Seq<char>, scope: Option<Seq<char>>) -> bool {
    p.id == id && (scope is None || p.sandbox_id == scope)
}

/// The first position, from `i` on, of the process that a client names; the length when
/// there is none.
pub open spec fn named_from(
    s: Seq<ProcView>,
    id: Seq<char>,
    scope: Option<Seq<char>>,
    i: int,
) -> int
    decreases s.len() - i,
{
    if i >= s.len() {
        s.len() as int
    } else if is_named(s[i], id, scope) {
        i
    } else {
        named_from(s, id, scope, i + 1)
    }
}

/// The processes that do not belong to a sandbox.
pub open spec fn others(s: Seq<ProcView>, sandbox: Seq<char>) -> Seq<ProcView>
    decreases s.len(),
{
    if s.len() == 0 {
        Seq::empty()
    } else if s.last().sandbox_id == Some(sandbox) {
        others(s.drop_last(), sandbox)
    } else {
        others(s.drop_last(), sandbox).push(s.last())
    }
}

/// Whether a process is listed for a sandbox; all are when none is given.
pub open spec fn is_listed(p: ProcView, scope: Option<Seq<char>>) -> bool {
    scope is None || p.sandbox_id == scope
}

/// How many processes run, of those that are listed for a sandbox.
pub open spec fn running(s: Seq<ProcView>, scope: Option<Seq<char>>) -> nat
    decreases s.len(),
{
    if s.len() == 0 {
        0
    } else if is_listed(s.last(), scope) && s.last().exit is None {
        running(s.drop_last(), scope) + 1
    } else {
        running(s.drop_last(), scope)
    }
}

/// The exit code of a process that has ended with one.
pub open spec fn code_of(exit: Option<ExitInfo>) -> Option<i32> {
    match exit {
        Some(info) => info.exit_code,
        None => None,
    }
}

/// How a process is listed.
pub open spec fn listed(p: ProcView) -> json::JsonView {
    json::object(
        seq![
            ("id"@, json::JsonView::Str(p.id)),
            ("pid"@, json::JsonView::Int(p.pid as int)),
            ("cmd"@, p.cmd),
            ("tag"@, exec::text_or_null(p.tag)),
            ("started_at_ms"@, json::JsonView::Int(p.started_at_ms as int)),
            ("running"@, json::JsonView::Bool(p.exit is None)),
            ("exit_code"@, exec::number_or_null(code_of(p.exit))),
        ],
    )
}

/// The list of the processes of a sandbox.
pub open spec fn listing(s: Seq<ProcView>, scope: Option<Seq<char>>) -> Seq<json::JsonView>
    decreases s.len(),
{
    if s.len() == 0 {
        Seq::empty()
    } else if is_listed(s.last(), scope) {
        listing(s.drop_last(), scope).push(listed(s.last()))
    } else {
        listing(s.drop_last(), scope)
    }
}

/// The name of the process with the given number.
pub open spec fn id_text(n: u64) -> Seq<char> {
    "p-"@ + number::decimal(n as nat)
}

/// Whether a name was given out before the number came to `seq`.
pub open spec fn was_given(id: Seq<char>, seq: u64) -> bool {
    exists|n: u64| n < seq && id == #[trigger] id_text(n)
}

/// The background processes, and how many other operations are under way.
pub struct ProcRegistry {
    pub procs: Vec<Proc>,
    /// The number of the next process.
    pub seq: u64,
    /// Operations under way that are no background processes.
    pub active: usize,
}

/// What a registry denotes.
pub struct ProcsView {
    pub procs: Seq<ProcView>,
    pub seq: u64,
    pub active: usize,
}

impl View for ProcRegistry {
    type V = ProcsView;

    open spec fn view(&self) -> ProcsView {
        ProcsView { procs: proc_views(self.procs@), seq: self.seq, active: self.active }
    }
}

impl ProcsView {
    /// No two processes have the same name, and every name was given out.
    pub open spec fn wf(self) -> bool {
        &&& forall|i: int, j: int|
            0 <= i < j < self.procs.len() ==> (#[trigger] self.procs[i]).id != (
            #[trigger] self.procs[j]).id
        &&& forall|i: int|
            0 <= i < self.procs.len() ==> was_given((#[trigger] self.procs[i]).id, self.seq)
    }
}

fn same_scope(a: &Option<String>, b: &Option<String>) -> (r: bool)
    ensures
        r == (exec::opt_text(*a) == exec::opt_text(*b)),
{
    match (a, b) {
        (Some(x), Some(y)) => str_eq(x.as_str(), y.as_str()),
        (None, None) => true,
        _ => false,
    }
}

fn copy_scope(a: &Option<String>) -> (r: Option<String>)
    ensures
        exec::opt_text(r) == exec::opt_text(*a),
{
    match a {
        Some(s) => Some(s.clone()),
        None => None,
    }
}

fn is_scope(a: &Option<String>, b: &str) -> (r: bool)
    ensures
        r == (exec::opt_text(*a) == Some(b@)),
{
    match a {
        Some(x) => str_eq(x.as_str(), b),
        None => false,
    }
}

fn in_listing(p: &Proc, scope: Option<&str>) -> (r: bool)
    ensures
        r == is_listed(p@, scope_of(scope)),
{
    match scope {
        None => true,
        Some(s) => is_scope(&p.sandbox_id, s),
    }
}

impl Default for ProcRegistry {
    /// A registry without processes.
    fn default() -> (r: ProcRegistry)
        ensures
            r@ == (ProcsView { procs: Seq::empty(), seq: 0, active: 0 }),
            r@.wf(),
    {
        let r = ProcRegistry { procs: Vec::new(), seq: 0, active: 0 };
        assert(r@.procs =~= Seq::<ProcView>::empty());
        r
    }
}

/// Whether a tally says, once for each sandbox, how many of its processes have ended.
spec fn tallies(t: Seq<(Option<String>, usize)>, s: Seq<ProcView>) -> bool {
    &&& forall|i: int, j: int|
        0 <= i < j < t.len() ==> exec::opt_text((#[trigger] t[i]).0) != exec::opt_text(
            (#[trigger] t[j]).0,
        )
    &&& forall|i: int|
        0 <= i < t.len() ==> (#[trigger] t[i]).1 == finished_count(s, exec::opt_text(t[i].0))
    &&& forall|scope: Option<Seq<char>>| #[trigger]
        finished_count(s, scope) > 0 ==> tallied(t, scope)
}

/// Whether a sandbox stands in a tally.
spec fn tallied(t: Seq<(Option<String>, usize)>, scope: Option<Seq<char>>) -> bool {
    exists|i: int| 0 <= i < t.len() && exec::opt_text((#[trigger] t[i]).0) == scope
}

/// Counts a process that has ended, and gives how many of its sandbox had before.
fn count_in(tally: &mut Vec<(Option<String>, usize)>, p: &Proc, later: Ghost<Seq<ProcView>>) -> (n:
    usize)
    requires
        p@.exit is Some,
        tallies(old(tally)@, later@),
        later@.len() < usize::MAX,
    ensures
        n == finished_count(later@, p@.sandbox_id),
        tallies(final(tally)@, seq![p@] + later@),
{
    let ghost before = tally@;
    let ghost scope = p@.sandbox_id;
    let ghost more = seq![p@] + later@;
    proof {
        assert(more.skip(1) =~= later@);
        lemma_finished_bound(later@, scope);
    }
    let mut i: usize = 0;
    while i < tally.len()
        invariant
            i <= tally@.len(),
            tally@ == before,
            scope == p@.sandbox_id,
            p@.exit is Some,
            tallies(before, later@),
            more == seq![p@] + later@,
            more.skip(1) == later@,
            finished_count(later@, scope) <= later@.len() < usize::MAX,
            forall|j: int| 0 <= j < i ==> exec::opt_text((#[trigger] before[j]).0) != scope,
        decreases tally@.len() - i,
    {
        if same_scope(&tally[i].0, &p.sandbox_id) {
            let n: usize = tally[i].1;
            let named: Option<String> = copy_scope(&p.sandbox_id);
            assert(before[i as int].1 == n);
            tally.set(i, (named, n + 1));
            proof {
                assert forall|j: int| 0 <= j < tally@.len() implies exec::opt_text(
                    (#[trigger] tally@[j]).0,
                ) == exec::opt_text(before[j].0) && tally@[j].1 == finished_count(
                    more,
                    exec::opt_text(tally@[j].0),
                ) by {
                    if j < i {
                        assert(exec::opt_text(before[j].0) != exec::opt_text(before[i as int].0));
                    } else if j > i {
                        assert(exec::opt_text(before[i as int].0) != exec::opt_text(before[j].0));
                    }
                }
                assert forall|sc: Option<Seq<char>>| #[trigger]
                    finished_count(more, sc) > 0 implies tallied(tally@, sc) by {
                    if sc == scope {
                        assert(exec::opt_text(tally@[i as int].0) == sc);
                    } else {
                        assert(finished_count(later@, sc) > 0);
                        let j = choose|j: int|
                            0 <= j < before.len() && exec::opt_text((#[trigger] before[j]).0) == sc;
                        assert(exec::opt_text(tally@[j].0) == sc);
                    }
                }
            }
            return n;
        }
        i += 1;
    }
    assert(finished_count(later@, scope) == 0) by {
        if finished_count(later@, scope) > 0 {
            let j = choose|j: int|
                0 <= j < before.len() && exec::opt_text((#[trigger] before[j]).0) == scope;
        }
    }
    let named: Option<String> = copy_scope(&p.sandbox_id);
    tally.push((named, 1));
    proof {
        let last = before.len() as int;
        assert(exec::opt_text(tally@[last].0) == scope);
        assert forall|j: int| 0 <= j < tally@.len() implies (#[trigger] tally@[j]).1
            == finished_count(more, exec::opt_text(tally@[j].0)) by {
            if j < last {
                assert(tally@[j] == before[j]);
            }
        }
        assert forall|j: int, k: int| 0 <= j < k < tally@.len() implies exec::opt_text(
            (#[trigger] tally@[j]).0,
        ) != exec::opt_text((#[trigger] tally@[k]).0) by {
            assert(tally@[j] == before[j]);
            if k < last {
                assert(tally@[k] == before[k]);
            }
        }
        assert forall|sc: Option<Seq<char>>| #[trigger] finished_count(more, sc) > 0 implies tallied(
            tally@,
            sc,
        ) by {
            if sc != scope {
                assert(finished_count(later@, sc) > 0);
                let j = choose|j: int|
                    0 <= j < before.len() && exec::opt_text((#[trigger] before[j]).0) == sc;
                assert(tally@[j] == before[j]);
            }
        }
    }
    0
}

impl ProcRegistry {
    /// Adds a process. Of those of a sandbox that have ended, the oldest go when there are
    /// too many, so that the newest stay visible. Those that run always stay.
    pub fn insert(&mut self, proc: Proc)
        ensures
            final(self)@ == (ProcsView { procs: inserted(old(self)@.procs, proc@), ..old(self)@ }),
    {
        let ghost before = self@;
        let ghost p = proc@;
        self.procs.push(proc);
        let ghost all = self@.procs;
        assert(all =~= before.procs.push(p));
        let total: usize = self.procs.len();
        let mut tally: Vec<(Option<String>, usize)> = Vec::new();
        let mut k: usize = total;
        assert(all.take(total as int) =~= all);
        assert(self@.procs =~= all.take(total as int) + pruned(all.skip(total as int)));
        while k > 0
            invariant
                k <= total,
                total == all.len(),
                tallies(tally@, all.skip(k as int)),
                self@.procs == all.take(k as int) + pruned(all.skip(k as int)),
                self.seq == before.seq,
                self.active == before.active,
            decreases k,
        {
            let ghost now = self@.procs;
            let ghost later = all.skip(k as int);
            k -= 1;
            let ghost rest = all.skip(k as int);
            proof {
                assert(rest.skip(1) =~= later);
                assert(rest =~= seq![all[k as int]] + later);
                assert(rest[0] == all[k as int]);
                assert(now[k as int] == all[k as int]);
                assert(self.procs@.len() == now.len());
            }
            let q = &self.procs[k];
            assert(q@ == all[k as int]);
            let drop: bool = if q.state.exit.is_some() {
                let n: usize = count_in(&mut tally, q, Ghost(later));
                n >= MAX_FINISHED_PROCS
            } else {
                proof {
                    assert forall|sc: Option<Seq<char>>|
                        finished_count(rest, sc) == #[trigger] finished_count(later, sc) by {}
                    assert forall|sc: Option<Seq<char>>| #[trigger]
                        finished_count(rest, sc) > 0 implies tallied(tally@, sc) by {
                        assert(finished_count(later, sc) > 0);
                    }
                }
                false
            };
            if drop {
                self.procs.remove(k);
                assert(self@.procs =~= now.remove(k as int));
                assert(self@.procs =~= all.take(k as int) + pruned(later));
            } else {
                assert(self@.procs =~= all.take(k as int) + (seq![all[k as int]] + pruned(later)));
            }
        }
        assert(all.skip(0) =~= all);
        assert(self@.procs =~= pruned(all));
    }

    /// Gives out a name that was never given out.
    pub fn alloc_id(&mut self) -> (r: String)
        ensures
            r@ == id_text(old(self)@.seq),
            final(self)@ == (ProcsView { seq: old(self)@.seq.wrapping_add(1), ..old(self)@ }),
            old(self)@.wf() && old(self)@.seq < u64::MAX ==> final(self)@.wf(),
    {
        let ghost before = self@;
        let n: u64 = self.seq;
        self.seq = n.wrapping_add(1);
        proof {
            if before.wf() && n < u64::MAX {
                lemma_part_wf(before, self@);
            }
        }
        let mut r: String = "p-".to_owned();
        r.append(write_decimal(n).as_str());
        r
    }

    /// Enters a command that was started in the background, and gives it a name.
    pub fn start_background(
        &mut self,
        spec: &ExecSpec,
        pid: u32,
        started_at: i64,
        sandbox_id: Option<&str>,
    ) -> (r: String)
        ensures
            r@ == id_text(old(self)@.seq),
            final(self)@ == (ProcsView {
                procs: inserted(
                    old(self)@.procs,
                    ProcView {
                        id: id_text(old(self)@.seq),
                        pid,
                        tag: exec::opt_text(spec.tag),
                        cmd: spec.cmd_json.tree(),
                        started_at_ms: started_at,
                        sandbox_id: scope_of(sandbox_id),
                        exit: None,
                    },
                ),
                seq: old(self)@.seq.wrapping_add(1),
                ..old(self)@
            }),
            old(self)@.wf() && old(self)@.seq < u64::MAX ==> final(self)@.wf(),
    {
        let ghost before = self@;
        let id = self.alloc_id();
        let tag: Option<String> = match &spec.tag {
            Some(t) => Some(t.clone()),
            None => None,
        };
        let sandbox_id: Option<String> = match sandbox_id {
            Some(s) => Some(s.to_owned()),
            None => None,
        };
        let proc = Proc {
            id: id.clone(),
            pid,
            tag,
            cmd_json: spec.cmd_json.copy(),
            started_at_ms: started_at,
            sandbox_id,
            state: ProcState { exit: None },
        };
        let ghost p = proc@;
        self.insert(proc);
        proof {
            if before.wf() && before.seq < u64::MAX {
                lemma_inserted_wf(before, p);
            }
        }
        id
    }

    fn find(&self, id: &str, scope: Option<&str>) -> (r: usize)
        ensures
            r == named_from(self@.procs, id@, scope_of(scope), 0),
            r <= self.procs@.len(),
    {
        let mut i: usize = 0;
        while i < self.procs.len()
            invariant
                i <= self.procs@.len(),
                named_from(self@.procs, id@, scope_of(scope), 0) == named_from(
                    self@.procs,
                    id@,
                    scope_of(scope),
                    i as int,
                ),
            decreases self.procs@.len() - i,
        {
            if str_eq(self.procs[i].id.as_str(), id) && in_listing(&self.procs[i], scope) {
                return i;
            }
            i += 1;
        }
        i
    }

    /// Takes the process that a client names out of the registry. There is none when it
    /// is unknown or belongs to another sandbox.
    pub fn remove_by_id(&mut self, id: &str, sandbox_id: Option<&str>) -> (r: Option<Proc>)
        ensures
            ({
                let s = old(self)@.procs;
                let at = named_from(s, id@, scope_of(sandbox_id), 0);
                match r {
                    Some(p) => at < s.len() && p@ == s[at] && final(self)@ == (ProcsView {
                        procs: s.remove(at),
                        ..old(self)@
                    }),
                    None => at == s.len() && final(self)@ == old(self)@,
                }
            }),
            old(self)@.wf() ==> final(self)@.wf(),
    {
        let ghost before = self@;
        let at = self.find(id, sandbox_id);
        if at < self.procs.len() {
            let p = self.procs.remove(at);
            assert(self@.procs =~= before.procs.remove(at as int));
            proof {
                if before.wf() {
                    let s = before.procs;
                    let t = self@.procs;
                    assert forall|i: int| 0 <= i < t.len() implies exists|k: int|
                        0 <= k < s.len() && (#[trigger] s[k]).id == (#[trigger] t[i]).id by {
                        let k = if i < at {
                            i
                        } else {
                            i + 1
                        };
                        assert(s[k].id == t[i].id);
                    }
                    assert forall|i: int, j: int| 0 <= i < j < t.len() implies (#[trigger] t[i]).id != (
                    #[trigger] t[j]).id by {
                        let k = if i < at {
                            i
                        } else {
                            i + 1
                        };
                        let l = if j < at {
                            j
                        } else {
                            j + 1
                        };
                        assert(s[k].id != s[l].id);
                    }
                    lemma_part_wf(before, self@);
                }
            }
            Some(p)
        } else {
            None
        }
    }

    /// Forgets the processes of a sandbox.
    pub fn remove_for_sandbox(&mut self, sandbox_id: &str)
        ensures
            final(self)@ == (ProcsView {
                procs: others(old(self)@.procs, sandbox_id@),
                ..old(self)@
            }),
            old(self)@.wf() ==> final(self)@.wf(),
    {
        let ghost before = self@;
        let ghost all = self@.procs;
        let total: usize = self.procs.len();
        let mut kept: usize = 0;
        let mut k: usize = 0;
        assert(all.take(0) =~= Seq::<ProcView>::empty());
        assert(all.skip(0) =~= all);
        assert(self@.procs =~= others(all.take(0), sandbox_id@) + all.skip(0));
        while k < total
            invariant
                k <= total,
                total == all.len(),
                kept <= k,
                kept == others(all.take(k as int), sandbox_id@).len(),
                self@.procs == others(all.take(k as int), sandbox_id@) + all.skip(k as int),
                self.seq == before.seq,
                self.active == before.active,
            decreases total - k,
        {
            let ghost a = others(all.take(k as int), sandbox_id@);
            let ghost now = self@.procs;
            proof {
                assert(all.take(k + 1).drop_last() =~= all.take(k as int));
                assert(all.take(k + 1).last() == all[k as int]);
                assert(now[kept as int] == all[k as int]);
                assert(self.procs@.len() == now.len());
            }
            let q = &self.procs[kept];
            assert(q@ == all[k as int]);
            if is_scope(&q.sandbox_id, sandbox_id) {
                self.procs.remove(kept);
                assert(self@.procs =~= now.remove(kept as int));
                assert(self@.procs =~= a + all.skip(k + 1));
            } else {
                kept += 1;
                assert(self@.procs =~= a.push(all[k as int]) + all.skip(k + 1));
            }
            k += 1;
        }
        assert(all.take(total as int) =~= all);
        assert(self@.procs =~= others(all, sandbox_id@));
        proof {
            if before.wf() {
                lemma_others_part(all, sandbox_id@);
                lemma_part_wf(before, self@);
            }
        }
    }

    /// Notes how the process with the given name ended, if it is still known.
    pub fn pump_background(&mut self, id: &str, info: ExitInfo)
        ensures
            ({
                let s = old(self)@.procs;
                let at = named_from(s, id@, None, 0);
                final(self)@ == (if at < s.len() {
                    ProcsView {
                        procs: s.update(at, ProcView { exit: Some(info), ..s[at] }),
                        ..old(self)@
                    }
                } else {
                    old(self)@
                })
            }),
            old(self)@.wf() ==> final(self)@.wf(),
    {
        let ghost before = self@;
        let at = self.find(id, None);
        if at < self.procs.len() {
            self.procs[at].state.exit = Some(info);
            assert(self@.procs =~= before.procs.update(
                at as int,
                ProcView { exit: Some(info), ..before.procs[at as int] },
            ));
            proof {
                if before.wf() {
                    let s = before.procs;
                    let t = self@.procs;
                    assert forall|i: int| 0 <= i < t.len() implies exists|k: int|
                        0 <= k < s.len() && (#[trigger] s[k]).id == (#[trigger] t[i]).id by {
                        assert(s[i].id == t[i].id);
                    }
                    assert forall|i: int, j: int| 0 <= i < j < t.len() implies (#[trigger] t[i]).id != (
                    #[trigger] t[j]).id by {
                        assert(s[i].id != s[j].id);
                    }
                    lemma_part_wf(before, self@);
                }
            }
        }
    }

    /// Notes that an operation is under way.
    pub fn begin_op(&mut self)
        ensures
            final(self)@ == (ProcsView { active: old(self)@.active.wrapping_add(1), ..old(self)@ }),
            old(self)@.wf() ==> final(self)@.wf(),
    {
        self.active = self.active.wrapping_add(1);
    }

    /// Notes that an operation has ended.
    pub fn end_op(&mut self)
        ensures
            final(self)@ == (ProcsView { active: old(self)@.active.wrapping_sub(1), ..old(self)@ }),
            old(self)@.wf() ==> final(self)@.wf(),
    {
        self.active = self.active.wrapping_sub(1);
    }

    /// How many operations are under way.
    pub fn active_ops(&self) -> (n: usize)
        ensures
            n == self@.active,
    {
        self.active
    }

    fn count_running(&self, scope: Option<&str>) -> (n: usize)
        ensures
            n == running(self@.procs, scope_of(scope)),
    {
        let ghost all = self@.procs;
        let mut n: usize = 0;
        let mut i: usize = 0;
        assert(all.take(0) =~= Seq::<ProcView>::empty());
        while i < self.procs.len()
            invariant
                i <= self.procs@.len(),
                all == self@.procs,
                n == running(all.take(i as int), scope_of(scope)),
                n <= i,
            decreases self.procs@.len() - i,
        {
            let p = &self.procs[i];
            proof {
                assert(all.take(i + 1).drop_last() =~= all.take(i as int));
                assert(all.take(i + 1).last() == p@);
            }
            if in_listing(p, scope) && p.state.exit.is_none() {
                n += 1;
            }
            i += 1;
        }
        assert(all.take(all.len() as int) =~= all);
        n
    }

    /// How many processes run.
    pub fn running_count(&self) -> (n: usize)
        ensures
            n == running(self@.procs, None),
    {
        self.count_running(None)
    }

    /// How many processes of a sandbox run.
    pub fn running_count_for(&self, sandbox_id: &str) -> (n: usize)
        ensures
            n == running(self@.procs, Some(sandbox_id@)),
    {
        self.count_running(Some(sandbox_id))
    }

    /// The list of the processes of a sandbox, or of all, as a client gets it.
    pub fn list_processes(&self, sandbox_id: Option<&str>) -> (r: Doc)
        ensures
            r.tree() == json::JsonView::Array(listing(self@.procs, scope_of(sandbox_id))),
    {
        let ghost all = self@.procs;
        let ghost scope = scope_of(sandbox_id);
        let mut items: Vec<Doc> = Vec::new();
        let mut i: usize = 0;
        assert(all.take(0) =~= Seq::<ProcView>::empty());
        assert(json::doc_trees(items@) =~= Seq::<json::JsonView>::empty());
        while i < self.procs.len()
            invariant
                i <= self.procs@.len(),
                all == self@.procs,
                scope == scope_of(sandbox_id),
                json::doc_trees(items@) == listing(all.take(i as int), scope),
            decreases self.procs@.len() - i,
        {
            let p = &self.procs[i];
            let ghost before = items@;
            proof {
                assert(all.take(i + 1).drop_last() =~= all.take(i as int));
                assert(all.take(i + 1).last() == p@);
            }
            if in_listing(p, sandbox_id) {
                let doc = process_doc(p);
                items.push(doc);
                assert(json::doc_trees(items@) =~= json::doc_trees(before).push(listed(p@)));
            }
            i += 1;
        }
        assert(all.take(all.len() as int) =~= all);
        list_doc(items)
    }
}

fn process_doc(p: &Proc) -> (r: Doc)
    ensures
        r.tree() == listed(p@),
{
    let exit_code: Option<i32> = match p.state.exit {
        Some(info) => info.exit_code,
        None => None,
    };
    let mut members: Vec<(&'static str, Doc)> = Vec::new();
    members.push(("id", text_doc(p.id.as_str())));
    members.push(("pid", Doc::Uint(p.pid as u64)));
    members.push(("cmd", p.cmd_json.doc()));
    members.push(("tag", opt_text_doc(&p.tag)));
    members.push(("started_at_ms", Doc::Int(p.started_at_ms)));
    members.push(("running", Doc::Bool(p.state.exit.is_none())));
    members.push(("exit_code", number_doc(exit_code)));
    assert(json::doc_members(members@) =~= seq![
        ("id"@, json::JsonView::Str(p@.id)),
        ("pid"@, json::JsonView::Int(p@.pid as int)),
        ("cmd"@, p@.cmd),
        ("tag"@, exec::text_or_null(p@.tag)),
        ("started_at_ms"@, json::JsonView::Int(p@.started_at_ms as int)),
        ("running"@, json::JsonView::Bool(p@.exit is None)),
        ("exit_code"@, exec::number_or_null(code_of(p@.exit))),
    ]);
    object_doc(members)
}

/// Ends the background process that a client names: it is forgotten, and its process
/// group is to be killed when it still runs. Once it has ended, its pid may belong to
/// something else. That there is no such process is no error.
pub fn handle_process_delete(
    procs: &mut ProcRegistry,
    id: &str,
    sandbox_id: Option<&str>,
) -> (r: (Option<u32>, Reply))
    ensures
        ({
            let s = old(procs)@.procs;
            let at = named_from(s, id@, scope_of(sandbox_id), 0);
            if at < s.len() {
                &&& final(procs)@ == (ProcsView { procs: s.remove(at), ..old(procs)@ })
                &&& r.0 == (if s[at].exit is None {
                    Some(s[at].pid)
                } else {
                    None
                })
            } else {
                &&& final(procs)@ == old(procs)@
                &&& r.0 is None
            }
        }),
        r.1@ == response::ok_view(
            seq![("id"@, json::JsonView::Str(id@)), ("ok"@, json::JsonView::Bool(true))],
        ),
        old(procs)@.wf() ==> final(procs)@.wf(),
{
    let kill: Option<u32> = match procs.remove_by_id(id, sandbox_id) {
        Some(p) => if p.state.exit.is_none() {
            Some(p.pid)
        } else {
            None
        },
        None => None,
    };
    let mut members: Vec<(&'static str, Doc)> = Vec::new();
    members.push(("id", text_doc(id)));
    members.push(("ok", Doc::Bool(true)));
    assert(json::doc_members(members@) =~= seq![
        ("id"@, json::JsonView::Str(id@)),
        ("ok"@, json::JsonView::Bool(true)),
    ]);
    (kill, object_reply(200, members))
}

// ---------------------------------------------------------------------------
// What holds of the registry
// ---------------------------------------------------------------------------

/// Processes whose names all come from a sound registry, none of them twice, make a sound
/// registry.
proof fn lemma_part_wf(r: ProcsView, t: ProcsView)
    requires
        r.wf(),
        r.seq <= t.seq,
        forall|i: int|
            0 <= i < t.procs.len() ==> exists|k: int|
                0 <= k < r.procs.len() && (#[trigger] r.procs[k]).id == (#[trigger] t.procs[i]).id,
        forall|i: int, j: int|
            0 <= i < j < t.procs.len() ==> (#[trigger] t.procs[i]).id != (#[trigger] t.procs[j]).id,
    ensures
        t.wf(),
{
    assert forall|i: int| 0 <= i < t.procs.len() implies was_given(
        (#[trigger] t.procs[i]).id,
        t.seq,
    ) by {
        let k = choose|k: int|
            0 <= k < r.procs.len() && (#[trigger] r.procs[k]).id == t.procs[i].id;
        assert(was_given(r.procs[k].id, r.seq));
        let n = choose|n: u64| n < r.seq && r.procs[k].id == #[trigger] id_text(n);
        assert(n < t.seq && t.procs[i].id == id_text(n));
    }
}

/// Leaving a sandbox out drops processes and changes nothing else.
proof fn lemma_others_part(s: Seq<ProcView>, sandbox: Seq<char>)
    ensures
        forall|i: int|
            0 <= i < others(s, sandbox).len() ==> exists|k: int|
                0 <= k < s.len() && (#[trigger] s[k]).id == (#[trigger] others(s, sandbox)[i]).id,
        (forall|i: int, j: int| 0 <= i < j < s.len() ==> (#[trigger] s[i]).id != (#[trigger] s[j]).id)
            ==> (forall|i: int, j: int|
            0 <= i < j < others(s, sandbox).len() ==> (#[trigger] others(s, sandbox)[i]).id != (
            #[trigger] others(s, sandbox)[j]).id),
    decreases s.len(),
{
    if s.len() > 0 {
        let front = s.drop_last();
        lemma_others_part(front, sandbox);
        let a = others(front, sandbox);
        let b = others(s, sandbox);
        assert forall|i: int| 0 <= i < b.len() implies exists|k: int|
            0 <= k < s.len() && (#[trigger] s[k]).id == (#[trigger] b[i]).id by {
            if i < a.len() {
                let k = choose|k: int|
                    0 <= k < front.len() && (#[trigger] front[k]).id == a[i].id;
                assert(s[k].id == b[i].id);
            } else {
                assert(s[s.len() - 1].id == b[i].id);
            }
        }
        if forall|i: int, j: int|
            0 <= i < j < s.len() ==> (#[trigger] s[i]).id != (#[trigger] s[j]).id {
            assert forall|i: int, j: int| 0 <= i < j < front.len() implies (#[trigger] front[i]).id != (
            #[trigger] front[j]).id by {
                assert(s[i].id != s[j].id);
            }
            assert forall|i: int, j: int| 0 <= i < j < b.len() implies (#[trigger] b[i]).id != (
            #[trigger] b[j]).id by {
                if j < a.len() {
                    assert(a[i].id != a[j].id);
                } else {
                    let k = choose|k: int|
                        0 <= k < front.len() && (#[trigger] front[k]).id == a[i].id;
                    assert(s[k].id != s[s.len() - 1].id);
                }
            }
        }
    }
}

/// Pruning drops processes and changes nothing else.
proof fn lemma_pruned_part(s: Seq<ProcView>)
    ensures
        forall|i: int| 0 <= i < pruned(s).len() ==> s.contains(#[trigger] pruned(s)[i]),
        (forall|i: int, j: int| 0 <= i < j < s.len() ==> (#[trigger] s[i]).id != (#[trigger] s[j]).id)
            ==> (forall|i: int, j: int|
            0 <= i < j < pruned(s).len() ==> (#[trigger] pruned(s)[i]).id != (#[trigger] pruned(
                s,
            )[j]).id),
    decreases s.len(),
{
    if s.len() > 0 {
        let later = s.skip(1);
        lemma_pruned_part(later);
        let a = pruned(later);
        let b = pruned(s);
        let d = b.len() - a.len();
        assert forall|i: int| 0 <= i < b.len() implies s.contains(#[trigger] b[i]) by {
            if i < d {
                assert(s[0] == b[i]);
            } else {
                assert(b[i] == a[i - d]);
                assert(later.contains(a[i - d]));
                let k = choose|k: int| 0 <= k < later.len() && later[k] == a[i - d];
                assert(s[k + 1] == b[i]);
            }
        }
        if forall|i: int, j: int|
            0 <= i < j < s.len() ==> (#[trigger] s[i]).id != (#[trigger] s[j]).id {
            assert forall|i: int, j: int| 0 <= i < j < later.len() implies (#[trigger] later[i]).id != (
            #[trigger] later[j]).id by {
                assert(s[i + 1].id != s[j + 1].id);
            }
            assert forall|i: int, j: int| 0 <= i < j < b.len() implies (#[trigger] b[i]).id != (
            #[trigger] b[j]).id by {
                assert(b[j] == a[j - d]);
                if i < d {
                    assert(later.contains(a[j - d]));
                    let k = choose|k: int| 0 <= k < later.len() && later[k] == a[j - d];
                    assert(s[0].id != s[k + 1].id);
                } else {
                    assert(b[i] == a[i - d]);
                    assert(a[i - d].id != a[j - d].id);
                }
            }
        }
    }
}

/// Different numbers make different names.
pub proof fn law_process_names_differ(a: u64, b: u64)
    requires
        a != b,
    ensures
        id_text(a) != id_text(b),
{
    number::law_numeral_reads_back(a as nat, 10, u64::MAX as nat);
    number::law_numeral_reads_back(b as nat, 10, u64::MAX as nat);
    let prefix = "p-"@;
    let x = number::decimal(a as nat);
    let y = number::decimal(b as nat);
    if prefix + x == prefix + y {
        assert((prefix + x).skip(prefix.len() as int) =~= x);
        assert((prefix + y).skip(prefix.len() as int) =~= y);
    }
}

proof fn lemma_inserted_wf(r: ProcsView, p: ProcView)
    requires
        r.wf(),
        r.seq < u64::MAX,
        p.id == id_text(r.seq),
    ensures
        (ProcsView { procs: inserted(r.procs, p), seq: (r.seq + 1) as u64, ..r }).wf(),
{
    let all = r.procs.push(p);
    let t = ProcsView { procs: inserted(r.procs, p), seq: (r.seq + 1) as u64, ..r };
    assert forall|i: int| 0 <= i < all.len() implies was_given((#[trigger] all[i]).id, t.seq) by {
        if i < r.procs.len() {
            assert(all[i] == r.procs[i]);
            assert(was_given(r.procs[i].id, r.seq));
            let n = choose|n: u64| n < r.seq && r.procs[i].id == #[trigger] id_text(n);
            assert(n < t.seq && all[i].id == id_text(n));
        } else {
            assert(r.seq < t.seq && all[i].id == id_text(r.seq));
        }
    }
    assert forall|i: int, j: int| 0 <= i < j < all.len() implies (#[trigger] all[i]).id != (
    #[trigger] all[j]).id by {
        if j < r.procs.len() {
            assert(r.procs[i].id != r.procs[j].id);
        } else {
            assert(all[i] == r.procs[i]);
            assert(was_given(r.procs[i].id, r.seq));
            let n = choose|n: u64| n < r.seq && r.procs[i].id == #[trigger] id_text(n);
            law_process_names_differ(n, r.seq);
        }
    }
    lemma_pruned_part(all);
    assert forall|i: int| 0 <= i < t.procs.len() implies was_given(
        (#[trigger] t.procs[i]).id,
        t.seq,
    ) by {
        assert(all.contains(t.procs[i]));
        let k = choose|k: int| 0 <= k < all.len() && all[k] == t.procs[i];
        assert(was_given(all[k].id, t.seq));
    }
}

proof fn lemma_finished_bound(s: Seq<ProcView>, scope: Option<Seq<char>>)
    ensures
        finished_count(s, scope) <= s.len(),
    decreases s.len(),
{
    if s.len() > 0 {
        lemma_finished_bound(s.skip(1), scope);
    }
}

proof fn lemma_finished_push(s: Seq<ProcView>, p: ProcView, scope: Option<Seq<char>>)
    ensures
        finished_count(s.push(p), scope) == finished_count(s, scope) + (if finished_in(p, scope) {
            1int
        } else {
            0
        }),
    decreases s.len(),
{
    let t = s.push(p);
    if s.len() > 0 {
        assert(t.skip(1) =~= s.skip(1).push(p));
        lemma_finished_push(s.skip(1), p, scope);
    } else {
        assert(t.skip(1) =~= s);
        assert(finished_count(s, scope) == 0);
        assert(t[0] == p);
    }
}

proof fn lemma_running_front(p: ProcView, s: Seq<ProcView>, scope: Option<Seq<char>>)
    ensures
        running(seq![p] + s, scope) == running(s, scope) + (if is_listed(p, scope) && p.exit is None {
            1int
        } else {
            0
        }),
    decreases s.len(),
{
    let t = seq![p] + s;
    if s.len() > 0 {
        assert(t.drop_last() =~= seq![p] + s.drop_last());
        assert(t.last() == s.last());
        lemma_running_front(p, s.drop_last(), scope);
    } else {
        assert(t.drop_last() =~= s);
        assert(t.last() == p);
    }
}

proof fn lemma_listing_front(p: ProcView, s: Seq<ProcView>, scope: Option<Seq<char>>)
    ensures
        listing(seq![p] + s, scope) == (if is_listed(p, scope) {
            seq![listed(p)] + listing(s, scope)
        } else {
            listing(s, scope)
        }),
    decreases s.len(),
{
    let t = seq![p] + s;
    if s.len() > 0 {
        assert(t.drop_last() =~= seq![p] + s.drop_last());
        assert(t.last() == s.last());
        lemma_listing_front(p, s.drop_last(), scope);
    } else {
        assert(t.drop_last() =~= s);
        assert(t.last() == p);
    }
    assert(listing(t, scope) =~= (if is_listed(p, scope) {
        seq![listed(p)] + listing(s, scope)
    } else {
        listing(s, scope)
    }));
}

proof fn lemma_pruned_counts(s: Seq<ProcView>, scope: Option<Seq<char>>)
    ensures
        running(pruned(s), scope) == running(s, scope),
        finished_count(pruned(s), scope) == (if finished_count(s, scope) <= MAX_FINISHED_PROCS {
            finished_count(s, scope)
        } else {
            MAX_FINISHED_PROCS as nat
        }),
    decreases s.len(),
{
    if s.len() > 0 {
        let later = s.skip(1);
        lemma_pruned_counts(later, scope);
        lemma_running_front(s[0], later, scope);
        assert(seq![s[0]] + later =~= s);
        if !outlived(s[0], later) {
            lemma_running_front(s[0], pruned(later), scope);
            assert((seq![s[0]] + pruned(later)).skip(1) =~= pruned(later));
        }
    }
}

/// Adding a process never drops one that runs, and leaves no sandbox with more finished
/// ones than are kept; a sandbox that has no more loses none.
pub proof fn law_insert_keeps_running_processes(
    s: Seq<ProcView>,
    p: ProcView,
    scope: Option<Seq<char>>,
)
    ensures
        running(inserted(s, p), scope) == running(s, scope) + running(seq![p], scope),
        finished_count(inserted(s, p), scope) <= MAX_FINISHED_PROCS,
        finished_count(s.push(p), scope) <= MAX_FINISHED_PROCS ==> finished_count(
            inserted(s, p),
            scope,
        ) == finished_count(s.push(p), scope),
{
    let all = s.push(p);
    lemma_pruned_counts(all, scope);
    assert(all.drop_last() =~= s);
    assert(seq![p].drop_last() =~= Seq::<ProcView>::empty());
    assert(seq![p].last() == p);
    assert(running(seq![p].drop_last(), scope) == 0);
}

proof fn lemma_pruned_scope(s: Seq<ProcView>, other: Seq<char>)
    requires
        finished_count(s, Some(other)) <= MAX_FINISHED_PROCS,
    ensures
        listing(pruned(s), Some(other)) == listing(s, Some(other)),
    decreases s.len(),
{
    if s.len() > 0 {
        let later = s.skip(1);
        lemma_pruned_scope(later, other);
        lemma_listing_front(s[0], later, Some(other));
        assert(seq![s[0]] + later =~= s);
        lemma_listing_front(s[0], pruned(later), Some(other));
    }
}

/// What one sandbox starts does not change the list of another, unless more processes of
/// that one have ended than are kept.
pub proof fn law_sandboxes_do_not_share_lists(s: Seq<ProcView>, p: ProcView, other: Seq<char>)
    requires
        p.sandbox_id != Some(other),
        finished_count(s, Some(other)) <= MAX_FINISHED_PROCS,
    ensures
        listing(inserted(s, p), Some(other)) == listing(s, Some(other)),
{
    let all = s.push(p);
    lemma_finished_push(s, p, Some(other));
    lemma_pruned_scope(all, other);
    assert(all.drop_last() =~= s);
}

proof fn lemma_named(s: Seq<ProcView>, id: Seq<char>, scope: Option<Seq<char>>, i: int)
    requires
        0 <= i <= s.len(),
    ensures
        i <= named_from(s, id, scope, i) <= s.len(),
        named_from(s, id, scope, i) < s.len() ==> is_named(
            s[named_from(s, id, scope, i)],
            id,
            scope,
        ),
        forall|j: int|
            i <= j < named_from(s, id, scope, i) ==> !is_named(#[trigger] s[j], id, scope),
    decreases s.len() - i,
{
    if i < s.len() && !is_named(s[i], id, scope) {
        lemma_named(s, id, scope, i + 1);
    }
}

/// Ending a process twice is the same as ending it once: the second time there is none.
pub proof fn law_process_delete_is_idempotent(
    r: ProcsView,
    id: Seq<char>,
    scope: Option<Seq<char>>,
)
    requires
        r.wf(),
        named_from(r.procs, id, scope, 0) < r.procs.len(),
    ensures
        named_from(r.procs.remove(named_from(r.procs, id, scope, 0)), id, scope, 0)
            == r.procs.len() - 1,
{
    let s = r.procs;
    let at = named_from(s, id, scope, 0);
    lemma_named(s, id, scope, 0);
    let t = s.remove(at);
    lemma_named(t, id, scope, 0);
    let again = named_from(t, id, scope, 0);
    if again < t.len() {
        if again < at {
            assert(t[again] == s[again]);
        } else {
            assert(t[again] == s[again + 1]);
            assert(s[at].id != s[again + 1].id);
        }
    }
}

/// A client that acts for a sandbox ends only processes of that sandbox.
pub proof fn law_process_delete_stays_in_its_sandbox(
    s: Seq<ProcView>,
    id: Seq<char>,
    sandbox: Seq<char>,
)
    requires
        named_from(s, id, Some(sandbox), 0) < s.len(),
    ensures
        s[named_from(s, id, Some(sandbox), 0)].sandbox_id == Some(sandbox),
        s[named_from(s, id, Some(sandbox), 0)].id == id,
{
    lemma_named(s, id, Some(sandbox), 0);
}

/// When a sandbox is forgotten, no process of it is listed, and those of another stay.
pub proof fn law_forgotten_sandbox_has_no_processes(
    s: Seq<ProcView>,
    sandbox: Seq<char>,
    other: Seq<char>,
)
    ensures
        listing(others(s, sandbox), Some(sandbox)) == Seq::<json::JsonView>::empty(),
        other != sandbox ==> listing(others(s, sandbox), Some(other)) == listing(s, Some(other)),
    decreases s.len(),
{
    if s.len() > 0 {
        let front = s.drop_last();
        law_forgotten_sandbox_has_no_processes(front, sandbox, other);
        let a = others(front, sandbox);
        let b = others(s, sandbox);
        if s.last().sandbox_id != Some(sandbox) {
            assert(b.drop_last() =~= a);
            assert(b.last() == s.last());
        }
    }
}

/// An operation that has ended leaves the count as it was before it began.
pub proof fn law_operation_leaves_no_count(active: usize)
    ensures
        active.wrapping_add(1).wrapping_sub(1) == active,
{
}

// ---------------------------------------------------------------------------
// Pids that the server waits for
// ---------------------------------------------------------------------------

/// The pids of commands whose exit status the server collects itself.
pub struct OwnedPids {
    pub pids: HashSet<u32>,
}

impl View for OwnedPids {
    type V = Set<u32>;

    open spec fn view(&self) -> Set<u32> {
        self.pids@
    }
}

impl OwnedPids {
    /// No pids.
    pub fn new() -> (r: OwnedPids)
        ensures
            r@ == Set::<u32>::empty(),
    {
        OwnedPids { pids: HashSet::new() }
    }

    /// Whether the server waits for a pid itself.
    pub fn is_owned(&self, pid: u32) -> (r: bool)
        ensures
            r == self@.contains(pid),
    {
        self.pids.contains(&pid)
    }

    /// Notes that the server waits for a pid.
    pub fn track_owned(&mut self, pid: u32)
        ensures
            final(self)@ == old(self)@.insert(pid),
    {
        self.pids.insert(pid);
    }

    /// Notes that the server has collected the exit status of a pid.
    pub fn untrack_owned(&mut self, pid: u32)
        ensures
            final(self)@ == old(self)@.remove(pid),
    {
        self.pids.remove(&pid);
    }
}

/// How many orphans are collected in one round.
pub const MAX_REAPED_PER_ROUND: u32 = 256;

/// What the collector of orphans does next.
#[derive(Clone, Copy, Debug, PartialEq, Eq, Structural)]
pub enum ReapStep {
    /// Collect the exit status of this pid.
    Reap(u32),
    /// Come back later.
    Stop,
}

/// What the collector of orphans does, given the child that has exited, if one has, and
/// how many it collected in this round. The exit status of a command that the server
/// waits for itself is left alone: taking it would lose the exit code.
pub fn reap_step(exited: Option<u32>, owned: &OwnedPids, reaped: u32) -> (r: ReapStep)
    ensures
        r == (match exited {
            Some(pid) => if reaped < MAX_REAPED_PER_ROUND && pid != 0 && !owned@.contains(pid) {
                ReapStep::Reap(pid)
            } else {
                ReapStep::Stop
            },
            None => ReapStep::Stop,
        }),
{
    match exited {
        Some(pid) => if reaped < MAX_REAPED_PER_ROUND && pid != 0 && !owned.is_owned(pid) {
            ReapStep::Reap(pid)
        } else {
            ReapStep::Stop
        },
        None => ReapStep::Stop,
    }
}

// ---------------------------------------------------------------------------
// What is kept and listed
// ---------------------------------------------------------------------------

/// A process denotes its own fields, and a registry its processes.
pub proof fn law_processes_denote_themselves(r: ProcRegistry, p: Proc, i: int, scope: &str)
    ensures
        p@.id == p.id@,
        p@.pid == p.pid,
        p@.cmd == p.cmd_json.tree(),
        p@.started_at_ms == p.started_at_ms,
        p@.exit == p.state.exit,
        p.tag matches Some(t) ==> p@.tag == Some(t@),
        p.tag is None ==> p@.tag is None,
        p.sandbox_id matches Some(t) ==> p@.sandbox_id == Some(t@),
        p.sandbox_id is None ==> p@.sandbox_id is None,
        r@.procs.len() == r.procs@.len(),
        0 <= i < r.procs@.len() ==> r@.procs[i] == r.procs@[i]@,
        r@.seq == r.seq,
        r@.active == r.active,
        scope_of(Some(scope)) == Some(scope@),
        scope_of(None) is None,
{
}

/// A process is listed with its name, its pid, its command and its tag, when it was started,
/// whether it runs, and the code with which it has ended, if with one.
pub proof fn law_listing_describes_the_process(p: ProcView)
    ensures
        json::member(listed(p), "id"@) == Some(json::JsonView::Str(p.id)),
        json::member(listed(p), "pid"@) == Some(json::JsonView::Int(p.pid as int)),
        json::member(listed(p), "cmd"@) == Some(p.cmd),
        p.tag matches Some(t) ==> json::member(listed(p), "tag"@) == Some(json::JsonView::Str(t)),
        p.tag is None ==> json::member(listed(p), "tag"@) == Some(json::JsonView::Null),
        json::member(listed(p), "started_at_ms"@) == Some(
            json::JsonView::Int(p.started_at_ms as int),
        ),
        json::member(listed(p), "running"@) == Some(json::JsonView::Bool(p.exit is None)),
        p.exit matches Some(info) ==> info.exit_code matches Some(n) ==> json::member(
            listed(p),
            "exit_code"@,
        ) == Some(json::JsonView::Int(n as int)),
        p.exit is None || p.exit->0.exit_code is None ==> json::member(listed(p), "exit_code"@) == Some(
            json::JsonView::Null,
        ),
{
    reveal_strlit("id");
    reveal_strlit("pid");
    reveal_strlit("cmd");
    reveal_strlit("tag");
    reveal_strlit("started_at_ms");
    reveal_strlit("running");
    reveal_strlit("exit_code");
    assert("id"@.len() == 2);
    assert("pid"@.len() == 3);
    assert("cmd"@.len() == 3);
    assert("tag"@.len() == 3);
    assert("started_at_ms"@.len() == 13);
    assert("running"@.len() == 7);
    assert("exit_code"@.len() == 9);
    assert("pid"@[0] != "cmd"@[0]);
    assert("pid"@[0] != "tag"@[0]);
    assert("cmd"@[0] != "tag"@[0]);
    json::lemma_object_7(
        ("id"@, json::JsonView::Str(p.id)),
        ("pid"@, json::JsonView::Int(p.pid as int)),
        ("cmd"@, p.cmd),
        ("tag"@, exec::text_or_null(p.tag)),
        ("started_at_ms"@, json::JsonView::Int(p.started_at_ms as int)),
        ("running"@, json::JsonView::Bool(p.exit is None)),
        ("exit_code"@, exec::number_or_null(code_of(p.exit))),
    );
}

/// One more process adds itself to the list of its sandbox, and to that of all, and to no
/// other; it adds to the count of those that run there only while it runs, and to that of
/// those that have ended there only once it has; and it goes with its sandbox, with no other.
pub proof fn law_one_more_process(s: Seq<ProcView>, p: ProcView, sandbox: Seq<char>)
    ensures
        listing(Seq::empty(), Some(sandbox)).len() == 0,
        listing(Seq::empty(), None).len() == 0,
        listing(s.push(p), None) == listing(s, None) + seq![listed(p)],
        p.sandbox_id == Some(sandbox) ==> listing(s.push(p), Some(sandbox)) == listing(
            s,
            Some(sandbox),
        ) + seq![listed(p)],
        p.sandbox_id != Some(sandbox) ==> listing(s.push(p), Some(sandbox)) == listing(
            s,
            Some(sandbox),
        ),
        running(Seq::empty(), Some(sandbox)) == 0,
        running(Seq::empty(), None) == 0,
        p.exit is None ==> running(s.push(p), None) == running(s, None) + 1,
        p.exit is None && p.sandbox_id == Some(sandbox) ==> running(s.push(p), Some(sandbox))
            == running(s, Some(sandbox)) + 1,
        p.exit is Some ==> running(s.push(p), None) == running(s, None),
        p.exit is Some || p.sandbox_id != Some(sandbox) ==> running(s.push(p), Some(sandbox))
            == running(s, Some(sandbox)),
        finished_count(Seq::empty(), Some(sandbox)) == 0,
        p.exit is Some ==> finished_count(s.push(p), p.sandbox_id) == finished_count(s, p.sandbox_id)
            + 1,
        p.exit is None || p.sandbox_id != Some(sandbox) ==> finished_count(s.push(p), Some(sandbox))
            == finished_count(s, Some(sandbox)),
        others(Seq::empty(), sandbox).len() == 0,
        p.sandbox_id == Some(sandbox) ==> others(s.push(p), sandbox) == others(s, sandbox),
        p.sandbox_id != Some(sandbox) ==> others(s.push(p), sandbox) == others(s, sandbox) + seq![p],
        MAX_FINISHED_PROCS == 256,
        MAX_REAPED_PER_ROUND == 256,
{
    let t = s.push(p);
    assert(t.drop_last() =~= s);
    assert(t.last() == p);
    lemma_finished_push(s, p, p.sandbox_id);
    lemma_finished_push(s, p, Some(sandbox));
    assert(listing(s, None).push(listed(p)) =~= listing(s, None) + seq![listed(p)]);
    assert(listing(s, Some(sandbox)).push(listed(p)) =~= listing(s, Some(sandbox)) + seq![listed(p)]);
    assert(others(s, sandbox).push(p) =~= others(s, sandbox) + seq![p]);
}

proof fn lemma_pruned_last(s: Seq<ProcView>)
    requires
        s.len() > 0,
    ensures
        pruned(s).len() > 0,
        pruned(s).last() == s.last(),
    decreases s.len(),
{
    let later = s.skip(1);
    if later.len() == 0 {
        assert(finished_count(later, s[0].sandbox_id) == 0);
        assert(pruned(later) =~= Seq::<ProcView>::empty());
        assert(pruned(s) =~= seq![s[0]]);
    } else {
        lemma_pruned_last(later);
        assert(later.last() == s.last());
    }
}

proof fn lemma_pruned_keeps(s: Seq<ProcView>, i: int)
    requires
        0 <= i < s.len(),
        s[i].exit is None || finished_count(s.skip(i + 1), s[i].sandbox_id) < 256,
    ensures
        pruned(s).contains(s[i]),
    decreases s.len(),
{
    let later = s.skip(1);
    if i == 0 {
        assert(pruned(s)[0] == s[0]);
    } else {
        assert(later[i - 1] == s[i]);
        assert(later.skip(i) =~= s.skip(i + 1));
        lemma_pruned_keeps(later, i - 1);
        let a = pruned(later);
        let k = choose|k: int| 0 <= k < a.len() && a[k] == s[i];
        if !outlived(s[0], later) {
            assert(pruned(s)[k + 1] == s[i]);
        } else {
            assert(pruned(s)[k] == s[i]);
        }
    }
}

proof fn lemma_pruned_drops(s: Seq<ProcView>, i: int)
    requires
        0 <= i < s.len(),
        s[i].exit is Some,
        finished_count(s.skip(i + 1), s[i].sandbox_id) >= 256,
        forall|a: int, b: int| 0 <= a < b < s.len() ==> (#[trigger] s[a]).id != (#[trigger] s[b]).id,
    ensures
        !pruned(s).contains(s[i]),
    decreases s.len(),
{
    let later = s.skip(1);
    assert forall|a: int, b: int| 0 <= a < b < later.len() implies (#[trigger] later[a]).id != (
    #[trigger] later[b]).id by {
        assert(s[a + 1].id != s[b + 1].id);
    }
    let a = pruned(later);
    if pruned(s).contains(s[i]) {
        let k = choose|k: int| 0 <= k < pruned(s).len() && pruned(s)[k] == s[i];
        if i == 0 {
            assert(pruned(s) == a);
            lemma_pruned_part(later);
            assert(later.contains(a[k]));
            let m = choose|m: int| 0 <= m < later.len() && later[m] == a[k];
            assert(s[0].id != s[m + 1].id);
        } else {
            assert(later[i - 1] == s[i]);
            assert(later.skip(i) =~= s.skip(i + 1));
            lemma_pruned_drops(later, i - 1);
            if outlived(s[0], later) {
                assert(a[k] == s[i]);
            } else if k > 0 {
                assert(a[k - 1] == s[i]);
            } else {
                assert(s[0].id != s[i].id);
            }
        }
    }
}

/// A process that is added is there, behind all others. One that was there before stays as
/// long as it runs, or fewer than 256 later ones of its sandbox have ended, and goes
/// otherwise; nothing else comes in.
pub proof fn law_newest_processes_stay(s: Seq<ProcView>, p: ProcView, i: int)
    requires
        0 <= i < s.len(),
        forall|a: int, b: int|
            0 <= a < b < s.push(p).len() ==> (#[trigger] s.push(p)[a]).id != (#[trigger] s.push(p)[b]).id,
    ensures
        inserted(s, p).len() > 0,
        inserted(s, p).last() == p,
        inserted(s, p).contains(s[i]) <==> s[i].exit is None || finished_count(
            s.push(p).skip(i + 1),
            s[i].sandbox_id,
        ) < 256,
        forall|k: int|
            0 <= k < inserted(s, p).len() ==> s.push(p).contains(#[trigger] inserted(s, p)[k]),
{
    let all = s.push(p);
    lemma_pruned_last(all);
    assert(all[i] == s[i]);
    lemma_pruned_part(all);
    if s[i].exit is None || finished_count(all.skip(i + 1), s[i].sandbox_id) < 256 {
        lemma_pruned_keeps(all, i);
    } else {
        lemma_pruned_drops(all, i);
    }
}

/// A registry with room for all of them keeps every process, in its order.
pub proof fn law_few_processes_all_stay(s: Seq<ProcView>, p: ProcView)
    requires
        s.len() < 256,
    ensures
        inserted(s, p) == s + seq![p],
{
    let all = s.push(p);
    lemma_pruned_whole(all);
    assert(all =~= s + seq![p]);
}

proof fn lemma_pruned_whole(s: Seq<ProcView>)
    requires
        s.len() <= 256,
    ensures
        pruned(s) == s,
    decreases s.len(),
{
    if s.len() > 0 {
        let later = s.skip(1);
        lemma_pruned_whole(later);
        lemma_finished_bound(later, s[0].sandbox_id);
        assert(seq![s[0]] + later =~= s);
    } else {
        assert(s =~= Seq::<ProcView>::empty());
    }
}

/// The process that a client names is the one with that name, where it belongs to the sandbox
/// that the client acts for; a client that acts for none reaches every one.
pub proof fn law_process_is_found_by_name(s: Seq<ProcView>, i: int, sandbox: Seq<char>)
    requires
        0 <= i < s.len(),
        forall|a: int, b: int| 0 <= a < b < s.len() ==> (#[trigger] s[a]).id != (#[trigger] s[b]).id,
    ensures
        named_from(s, s[i].id, None, 0) == i,
        s[i].sandbox_id == Some(sandbox) ==> named_from(s, s[i].id, Some(sandbox), 0) == i,
        s[i].sandbox_id != Some(sandbox) ==> named_from(s, s[i].id, Some(sandbox), 0) == s.len(),
{
    lemma_named(s, s[i].id, None, 0);
    lemma_named(s, s[i].id, Some(sandbox), 0);
    let a = named_from(s, s[i].id, None, 0);
    let b = named_from(s, s[i].id, Some(sandbox), 0);
    if a < i {
        assert(s[a].id != s[i].id);
    } else if i < a < s.len() {
        assert(s[i].id != s[a].id);
    }
    if b < i {
        assert(s[b].id != s[i].id);
    } else if i < b < s.len() {
        assert(s[i].id != s[b].id);
    }
}

/// A process is named by its number, and a name that was given out is one of a smaller number.
pub proof fn law_processes_are_numbered(n: u64, seq: u64)
    ensures
        id_text(n) == "p-"@ + number::decimal(n as nat),
        was_given(id_text(n), seq) <==> n < seq,
{
    if was_given(id_text(n), seq) {
        let m = choose|m: u64| m < seq && id_text(n) == #[trigger] id_text(m);
        if m != n {
            law_process_names_differ(m, n);
        }
    }
}

/// A list of processes tells nothing else of a process.
pub proof fn law_listing_tells_nothing_else(p: ProcView, key: Seq<char>)
    requires
        key != "id"@,
        key != "pid"@,
        key != "cmd"@,
        key != "tag"@,
        key != "started_at_ms"@,
        key != "running"@,
        key != "exit_code"@,
    ensures
        json::member(listed(p), key) is None,
{
    json::lemma_object_7_only(
        ("id"@, json::JsonView::Str(p.id)),
        ("pid"@, json::JsonView::Int(p.pid as int)),
        ("cmd"@, p.cmd),
        ("tag"@, exec::text_or_null(p.tag)),
        ("started_at_ms"@, json::JsonView::Int(p.started_at_ms as int)),
        ("running"@, json::JsonView::Bool(p.exit is None)),
        ("exit_code"@, exec::number_or_null(code_of(p.exit))),
        key,
    );
}

} // verus!
