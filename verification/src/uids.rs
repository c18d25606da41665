//! Which uids sandboxes get.
//!
//! A uid is handed out again only when nothing of the sandbox that had it is left.
//! Anything doubtful is quarantined: a uid whose processes still run would hand them to
//! the next sandbox.

use vstd::prelude::*;

use crate::procfs;
use crate::procfs::{lists_uid, pids_of_uid, ProcInfo, UID_BASE, UID_MAX};

verus! {

/// The uids that may be handed out.
pub struct UidPool {
    /// How many uids of the range were passed for the first time.
    pub next: u32,
    /// Uids that are clean and may be handed out again.
    pub free: Vec<u32>,
    /// Uids that are never handed out.
    pub quarantined: Vec<u32>,
}

/// What a pool denotes.
#[verifier::ext_equal]
pub struct PoolView {
    pub next: u32,
    pub free: Seq<u32>,
    pub quarantined: Seq<u32>,
}

impl View for UidPool {
    type V = PoolView;

    open spec fn view(&self) -> PoolView {
        PoolView { next: self.next, free: self.free@, quarantined: self.quarantined@ }
    }
}

/// How many uids the range has.
pub open spec fn range_len() -> int {
    UID_MAX - UID_BASE
}

/// Whether a live process runs under a uid.
pub open spec fn is_busy(procs: Seq<procfs::ProcView>, uid: u32) -> bool {
    procfs::pids_under(procs, uid).len() > 0
}

/// Takes a uid out of the free ones, the one that was freed last first. A quarantined one
/// is passed over, and one under which a process runs is quarantined.
pub open spec fn reuse(p: PoolView, procs: Seq<procfs::ProcView>) -> (PoolView, Option<u32>)
    decreases p.free.len(),
{
    if p.free.len() == 0 {
        (p, None)
    } else {
        let uid = p.free.last();
        let rest = PoolView { free: p.free.drop_last(), ..p };
        if p.quarantined.contains(uid) {
            reuse(rest, procs)
        } else if is_busy(procs, uid) {
            reuse(PoolView { quarantined: p.quarantined.push(uid), ..rest }, procs)
        } else {
            (rest, Some(uid))
        }
    }
}

/// Takes the next uid of the range that is not quarantined.
pub open spec fn fresh(p: PoolView) -> (PoolView, Option<u32>)
    decreases range_len() - p.next,
{
    if p.next >= range_len() {
        (p, None)
    } else {
        let uid = (UID_BASE + p.next) as u32;
        let rest = PoolView { next: (p.next + 1) as u32, ..p };
        if p.quarantined.contains(uid) {
            fresh(rest)
        } else {
            (rest, Some(uid))
        }
    }
}

/// Takes a uid: a free one where there is one, otherwise the next of the range.
pub open spec fn taken(p: PoolView, procs: Seq<procfs::ProcView>) -> (PoolView, Option<u32>) {
    let (rest, uid) = reuse(p, procs);
    if uid is Some {
        (rest, uid)
    } else {
        fresh(rest)
    }
}

impl UidPool {
    /// A pool that never hands out the given uids.
    pub fn with_reserved(reserved: &Vec<u32>) -> (r: UidPool)
        ensures
            r@ == (PoolView { next: 0, free: Seq::empty(), quarantined: reserved@ }),
    {
        let mut quarantined: Vec<u32> = Vec::new();
        let mut i: usize = 0;
        while i < reserved.len()
            invariant
                i <= reserved@.len(),
                quarantined@ == reserved@.take(i as int),
            decreases reserved@.len() - i,
        {
            quarantined.push(reserved[i]);
            i += 1;
            assert(reserved@.take(i as int) =~= reserved@.take(i - 1).push(reserved@[i - 1]));
        }
        assert(reserved@.take(i as int) =~= reserved@);
        UidPool { next: 0, free: Vec::new(), quarantined }
    }

    /// Takes a uid, a free one where there is one. Nothing means that the range is used up.
    ///
    /// That a free uid is clean is checked again here, against the processes that run now.
    pub fn take(&mut self, procs: &Vec<ProcInfo>) -> (r: Option<u32>)
        ensures
            (final(self)@, r) == taken(old(self)@, procfs::proc_views(procs@)),
    {
        let ghost ps = procfs::proc_views(procs@);
        let ghost start = self@;
        while self.free.len() > 0
            invariant
                ps == procfs::proc_views(procs@),
                reuse(self@, ps) == reuse(start, ps),
                start == old(self)@,
            decreases self.free@.len(),
        {
            let ghost before = self@;
            match self.free.pop() {
                Some(uid) => {
                    assert(uid == before.free.last());
                    assert(self@ =~= (PoolView { free: before.free.drop_last(), ..before }));
                    if !lists_uid(&self.quarantined, uid) {
                        if pids_of_uid(procs, uid).len() == 0 {
                            return Some(uid);
                        }
                        self.quarantined.push(uid);
                        assert(self@ =~= (PoolView {
                            free: before.free.drop_last(),
                            quarantined: before.quarantined.push(uid),
                            ..before
                        }));
                    }
                },
                None => {},
            }
        }
        let ghost rest = self@;
        while self.next < UID_MAX - UID_BASE
            invariant
                fresh(self@) == fresh(rest),
                ps == procfs::proc_views(procs@),
                taken(old(self)@, ps) == fresh(rest),
            decreases range_len() - self.next,
        {
            let uid: u32 = UID_BASE + self.next;
            let ghost before = self@;
            self.next = self.next + 1;
            assert(self@ =~= (PoolView { next: (before.next + 1) as u32, ..before }));
            if !lists_uid(&self.quarantined, uid) {
                return Some(uid);
            }
        }
        None
    }

    /// Gives a uid back whose sandbox is gone without a trace.
    pub fn release(&mut self, uid: u32)
        ensures
            final(self)@ == (PoolView { free: old(self)@.free.push(uid), ..old(self)@ }),
    {
        self.free.push(uid);
    }

    /// Takes a uid out of use for good.
    pub fn quarantine(&mut self, uid: u32)
        ensures
            final(self)@ == (PoolView {
                quarantined: old(self)@.quarantined.push(uid),
                ..old(self)@
            }),
    {
        self.quarantined.push(uid);
    }
}

impl Default for UidPool {
    /// A pool with nothing handed out and nothing quarantined.
    fn default() -> (r: UidPool)
        ensures
            r@ == (PoolView { next: 0, free: Seq::empty(), quarantined: Seq::empty() }),
    {
        UidPool { next: 0, free: Vec::new(), quarantined: Vec::new() }
    }
}

/// What is left of a pool when free uids were taken: the ones freed first, in their
/// order, and in quarantine those that were there and some that were free.
pub open spec fn reduced(before: PoolView, after: PoolView) -> bool {
    &&& after.free.len() <= before.free.len()
    &&& after.free == before.free.take(after.free.len() as int)
    &&& before.quarantined.len() <= after.quarantined.len()
    &&& after.quarantined.take(before.quarantined.len() as int) == before.quarantined
    &&& forall|i: int|
        before.quarantined.len() <= i < after.quarantined.len() ==> before.free.contains(
            #[trigger] after.quarantined[i],
        )
}

/// What taking out of the free uids does.
pub proof fn lemma_reuse(p: PoolView, procs: Seq<procfs::ProcView>)
    ensures
        reduced(p, reuse(p, procs).0),
        reuse(p, procs).0.next == p.next,
        match reuse(p, procs).1 {
            Some(uid) => {
                &&& reuse(p, procs).0.free.len() < p.free.len()
                &&& p.free[reuse(p, procs).0.free.len() as int] == uid
                &&& !p.quarantined.contains(uid)
                &&& !reuse(p, procs).0.quarantined.contains(uid)
                &&& !is_busy(procs, uid)
            },
            None => reuse(p, procs).0.free.len() == 0,
        },
    decreases p.free.len(),
{
    if p.free.len() == 0 {
        assert(p.free.take(0) =~= p.free);
        assert(p.quarantined.take(p.quarantined.len() as int) =~= p.quarantined);
    } else {
        let uid = p.free.last();
        let rest = PoolView { free: p.free.drop_last(), ..p };
        if p.quarantined.contains(uid) {
            lemma_reuse(rest, procs);
            assert(rest.free =~= p.free.take(rest.free.len() as int));
            assert(p.quarantined.take(p.quarantined.len() as int) =~= p.quarantined);
            lemma_reduced_trans(p, rest, reuse(rest, procs).0);
        } else if is_busy(procs, uid) {
            let q = PoolView { quarantined: p.quarantined.push(uid), ..rest };
            lemma_reuse(q, procs);
            assert(q.quarantined.take(p.quarantined.len() as int) =~= p.quarantined);
            assert(p.free[p.free.len() - 1] == uid);
            assert(q.free =~= p.free.take(q.free.len() as int));
            lemma_reduced_trans(p, q, reuse(q, procs).0);
            match reuse(p, procs).1 {
                Some(u) => {
                    if p.quarantined.contains(u) {
                        let i = choose|i: int| 0 <= i < p.quarantined.len() && p.quarantined[i] == u;
                        assert(q.quarantined[i] == u);
                    }
                },
                None => {},
            }
        } else {
            assert(p.quarantined.take(p.quarantined.len() as int) =~= p.quarantined);
            assert(rest.free =~= p.free.take(rest.free.len() as int));
        }
    }
}

proof fn lemma_reduced_trans(a: PoolView, b: PoolView, c: PoolView)
    requires
        b.free.len() <= a.free.len(),
        b.free == a.free.take(b.free.len() as int),
        a.quarantined.len() <= b.quarantined.len(),
        b.quarantined.take(a.quarantined.len() as int) == a.quarantined,
        forall|i: int|
            a.quarantined.len() <= i < b.quarantined.len() ==> a.free.contains(
                #[trigger] b.quarantined[i],
            ),
        reduced(b, c),
    ensures
        reduced(a, c),
{
    assert(c.free =~= a.free.take(c.free.len() as int));
    assert(c.quarantined.take(a.quarantined.len() as int) =~= a.quarantined) by {
        assert forall|i: int| 0 <= i < a.quarantined.len() implies c.quarantined[i]
            == a.quarantined[i] by {
            assert(c.quarantined.take(b.quarantined.len() as int)[i] == b.quarantined[i]);
            assert(b.quarantined.take(a.quarantined.len() as int)[i] == a.quarantined[i]);
        }
    }
    assert forall|i: int| a.quarantined.len() <= i < c.quarantined.len() implies a.free.contains(
        #[trigger] c.quarantined[i],
    ) by {
        if i < b.quarantined.len() {
            assert(c.quarantined.take(b.quarantined.len() as int)[i] == b.quarantined[i]);
        } else {
            let u = c.quarantined[i];
            assert(b.free.contains(u));
            let k = choose|k: int| 0 <= k < b.free.len() && b.free[k] == u;
            assert(a.free[k] == u);
        }
    }
}

/// What taking the next uid of the range does.
pub proof fn lemma_fresh(p: PoolView)
    ensures
        fresh(p).0.free == p.free,
        fresh(p).0.quarantined == p.quarantined,
        fresh(p).0.next >= p.next,
        p.next <= range_len() ==> fresh(p).0.next <= range_len(),
        match fresh(p).1 {
            Some(uid) => {
                &&& UID_BASE + p.next <= uid
                &&& uid == UID_BASE + fresh(p).0.next - 1
                &&& uid < UID_MAX
                &&& !p.quarantined.contains(uid)
            },
            None => fresh(p).0.next >= range_len(),
        },
    decreases range_len() - p.next,
{
    if p.next < range_len() {
        let uid = (UID_BASE + p.next) as u32;
        if p.quarantined.contains(uid) {
            lemma_fresh(PoolView { next: (p.next + 1) as u32, ..p });
        }
    }
}

/// A quarantined uid is never handed out, whether it was freed by mistake or comes next
/// in the range. A uid that is handed out again has no live process.
pub proof fn law_quarantined_uid_is_never_handed_out(p: PoolView, procs: Seq<procfs::ProcView>)
    ensures
        taken(p, procs).1 matches Some(uid) ==> !p.quarantined.contains(uid)
            && !taken(p, procs).0.quarantined.contains(uid),
        taken(p, procs).1 matches Some(uid) ==> taken(p, procs).0.next == p.next ==> !is_busy(
            procs,
            uid,
        ),
{
    lemma_reuse(p, procs);
    let rest = reuse(p, procs).0;
    if reuse(p, procs).1 is None {
        lemma_fresh(rest);
        match fresh(rest).1 {
            Some(uid) => {
                if p.quarantined.contains(uid) {
                    let i = choose|i: int| 0 <= i < p.quarantined.len() && p.quarantined[i] == uid;
                    assert(rest.quarantined.take(p.quarantined.len() as int)[i] == uid);
                    assert(rest.quarantined[i] == uid);
                }
            },
            None => {},
        }
    }
}

/// A uid that was freed and is clean is handed out before a fresh one.
pub proof fn law_released_uid_is_reused_first(p: PoolView, procs: Seq<procfs::ProcView>)
    requires
        p.free.len() > 0,
        !p.quarantined.contains(p.free.last()),
        !is_busy(procs, p.free.last()),
    ensures
        taken(p, procs) == (
            PoolView { free: p.free.drop_last(), ..p },
            Some(p.free.last()),
        ),
{
}

/// A pool that is used up stays so: it never starts again at the beginning of the range.
pub proof fn law_exhaustion_is_stable(p: PoolView, procs: Seq<procfs::ProcView>)
    requires
        taken(p, procs).1 is None,
    ensures
        taken(taken(p, procs).0, procs) == (taken(p, procs).0, None::<u32>),
{
    lemma_reuse(p, procs);
    lemma_fresh(reuse(p, procs).0);
}

/// The uid that is handed out is the one that was freed last, where it is neither quarantined
/// nor has a process; a quarantined one is passed over, and one with a process is quarantined.
pub proof fn law_last_freed_uid_comes_first(p: PoolView, procs: Seq<procfs::ProcView>, uid: u32)
    ensures
        ({
            let q = PoolView { free: p.free.push(uid), ..p };
            &&& !p.quarantined.contains(uid) && procfs::pids_under(procs, uid).len() == 0 ==> taken(
                q,
                procs,
            ) == (p, Some(uid))
            &&& p.quarantined.contains(uid) ==> taken(q, procs) == taken(p, procs)
            &&& !p.quarantined.contains(uid) && procfs::pids_under(procs, uid).len() > 0 ==> taken(
                q,
                procs,
            ) == taken(PoolView { quarantined: p.quarantined.push(uid), ..p }, procs)
        }),
{
    let q = PoolView { free: p.free.push(uid), ..p };
    assert(q.free.drop_last() =~= p.free);
    assert(q.free.last() == uid);
    assert((PoolView { free: q.free.drop_last(), ..q }) =~= p);
}

/// Without a free uid the next of the range is handed out, from 20000 on and before 65000, a
/// quarantined one passed over; when none is left there is none.
pub proof fn law_next_uid_of_the_range(p: PoolView, procs: Seq<procfs::ProcView>)
    requires
        p.free.len() == 0,
    ensures
        p.next < 45000 && !p.quarantined.contains((20000 + p.next) as u32) ==> taken(p, procs) == (
            PoolView { next: (p.next + 1) as u32, ..p },
            Some((20000 + p.next) as u32),
        ),
        p.next < 45000 && p.quarantined.contains((20000 + p.next) as u32) ==> taken(p, procs) == taken(
            PoolView { next: (p.next + 1) as u32, ..p },
            procs,
        ),
        p.next >= 45000 ==> taken(p, procs).1 is None,
        range_len() == 45000,
{
}

/// A pool denotes what it holds, and a uid is busy when a live process runs under it.
pub proof fn law_pool_denotes_itself(p: UidPool, procs: Seq<procfs::ProcView>, uid: u32)
    ensures
        p@.next == p.next,
        p@.free == p.free@,
        p@.quarantined == p.quarantined@,
        is_busy(procs, uid) <==> procfs::pids_under(procs, uid).len() > 0,
{
}

} // verus!
