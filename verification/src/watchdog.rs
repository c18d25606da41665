//! When the server evicts a sandbox, and when it stops.

use vstd::prelude::*;

use crate::processes;
use crate::sandboxes;
use crate::server;
use crate::server::State;
use crate::text;

verus! {

/// The time that the server may be idle, in milliseconds.
pub fn idle_ms(seconds: u64) -> (r: i64)
    ensures
        r == #[verifier::truncate] (seconds.wrapping_mul(1000) as i64),
        seconds <= 9223372036854775 ==> r == seconds * 1000,
{
    #[verifier::truncate]
    (seconds.wrapping_mul(1000) as i64)
}

/// Whether a sandbox may be evicted: it has no process that runs, and no operation is
/// under way.
pub open spec fn at_rest(s: processes::ProcsView, id: Seq<char>) -> bool {
    processes::running(s.procs, Some(id)) == 0 && s.active == 0
}

/// The sandboxes out of `ids` that are at rest.
pub open spec fn resting(s: processes::ProcsView, ids: Seq<Seq<char>>) -> Seq<Seq<char>>
    decreases ids.len(),
{
    if ids.len() == 0 {
        Seq::empty()
    } else if at_rest(s, ids.last()) {
        resting(s, ids.drop_last()).push(ids.last())
    } else {
        resting(s, ids.drop_last())
    }
}

/// Whether a sandbox may be evicted now.
pub fn is_at_rest(state: &State, id: &str) -> (r: bool)
    ensures
        r == at_rest(state@.procs, id@),
{
    state.procs.running_count_for(id) == 0 && state.procs.active_ops() == 0
}

/// The sandboxes that are evicted: those that are idle and at rest.
pub fn evictable(state: &State, now: i64) -> (r: Vec<String>)
    ensures
        text::strings(r@) == resting(
            state@.procs,
            sandboxes::idle_ids(state@.sandboxes.entries, now),
        ),
{
    let idle = state.sandboxes.idle_candidates(now);
    let ghost all = text::strings(idle@);
    let mut r: Vec<String> = Vec::new();
    let mut i: usize = 0;
    assert(all.take(0) =~= Seq::<Seq<char>>::empty());
    assert(text::strings(r@) =~= Seq::<Seq<char>>::empty());
    while i < idle.len()
        invariant
            i <= idle@.len(),
            all == text::strings(idle@),
            text::strings(r@) == resting(state@.procs, all.take(i as int)),
        decreases idle@.len() - i,
    {
        let ghost before = r@;
        proof {
            assert(all.take(i + 1).drop_last() =~= all.take(i as int));
            assert(all.take(i + 1).last() == idle@[i as int]@);
        }
        if is_at_rest(state, idle[i].as_str()) {
            r.push(idle[i].clone());
            assert(text::strings(r@) =~= text::strings(before).push(idle@[i as int]@));
        }
        i += 1;
    }
    assert(all.take(all.len() as int) =~= all);
    r
}

/// Watches for the server to be abandoned.
pub struct Watchdog {
    /// Since when a host is without sandboxes. It starts with the server, so that a host
    /// that was never used is given back too.
    pub empty_since: i64,
    pub idle_ms: i64,
}

/// For how long the server was without use, when that was too long.
pub open spec fn overdue(s: server::StateView, empty_since: i64, idle: i64, now: i64) -> Option<i64> {
    if s.host_mode {
        if s.sandboxes.entries.len() == 0 && now.wrapping_sub(empty_since) > idle {
            Some(now.wrapping_sub(empty_since))
        } else {
            None
        }
    } else if now.wrapping_sub(s.last_activity_ms) > idle && processes::running(s.procs.procs, None)
        == 0 && s.procs.active == 0 {
        Some(now.wrapping_sub(s.last_activity_ms))
    } else {
        None
    }
}

impl Watchdog {
    /// A watchdog that starts now.
    pub fn new(now: i64, idle_ms: i64) -> (r: Watchdog)
        ensures
            r.empty_since == now,
            r.idle_ms == idle_ms,
    {
        Watchdog { empty_since: now, idle_ms }
    }

    /// Looks at the state, after the evictions, and says for how long the server was
    /// without use when it is to stop.
    pub fn tick(&mut self, state: &State, now: i64) -> (r: Option<i64>)
        ensures
            r == overdue(state@, old(self).empty_since, old(self).idle_ms, now),
            final(self).idle_ms == old(self).idle_ms,
            final(self).empty_since == (if state@.host_mode && state@.sandboxes.entries.len() > 0 {
                now
            } else {
                old(self).empty_since
            }),
    {
        if state.host_mode {
            if state.sandboxes.count() != 0 {
                self.empty_since = now;
                return None;
            }
            let empty: i64 = now.wrapping_sub(self.empty_since);
            if empty > self.idle_ms {
                Some(empty)
            } else {
                None
            }
        } else {
            let quiet: i64 = now.wrapping_sub(state.last_activity_ms);
            if quiet > self.idle_ms && state.procs.running_count() == 0 && state.procs.active_ops()
                == 0 {
                Some(quiet)
            } else {
                None
            }
        }
    }
}

/// A server never stops under work: not a host with a sandbox, and not a dedicated one
/// with a process that runs or an operation that is under way.
pub proof fn law_busy_server_does_not_stop(
    s: server::StateView,
    empty_since: i64,
    idle: i64,
    now: i64,
)
    requires
        s.host_mode ==> s.sandboxes.entries.len() > 0,
        !s.host_mode ==> processes::running(s.procs.procs, None) > 0 || s.procs.active > 0,
    ensures
        overdue(s, empty_since, idle, now) is None,
{
}

/// A sandbox with work is never evicted.
pub proof fn law_sandbox_with_work_is_not_evicted(
    s: processes::ProcsView,
    ids: Seq<Seq<char>>,
    id: Seq<char>,
)
    requires
        processes::running(s.procs, Some(id)) > 0 || s.active > 0,
    ensures
        !resting(s, ids).contains(id),
    decreases ids.len(),
{
    if ids.len() > 0 {
        law_sandbox_with_work_is_not_evicted(s, ids.drop_last(), id);
        let a = resting(s, ids.drop_last());
        let b = resting(s, ids);
        if b.contains(id) {
            let i = choose|i: int| 0 <= i < b.len() && b[i] == id;
            if i < a.len() {
                assert(a[i] == id);
            }
        }
    }
}

/// The sandboxes that are evicted are those of the idle ones that have no process that runs,
/// while no operation is under way: one more idle sandbox adds itself when that holds of it.
pub proof fn law_idle_sandbox_at_rest_is_evicted(
    s: processes::ProcsView,
    ids: Seq<Seq<char>>,
    id: Seq<char>,
)
    ensures
        resting(s, Seq::empty()).len() == 0,
        processes::running(s.procs, Some(id)) == 0 && s.active == 0 ==> resting(s, ids.push(id))
            == resting(s, ids) + seq![id],
        processes::running(s.procs, Some(id)) > 0 || s.active > 0 ==> resting(s, ids.push(id))
            == resting(s, ids),
        at_rest(s, id) <==> processes::running(s.procs, Some(id)) == 0 && s.active == 0,
{
    assert(ids.push(id).drop_last() =~= ids);
    assert(ids.push(id).last() == id);
    assert(resting(s, ids).push(id) =~= resting(s, ids) + seq![id]);
}

/// A host stops when it has been without sandboxes for longer than it may be idle; a dedicated
/// server when its last activity is longer ago than that, and nothing runs and no operation is
/// under way. The time since then is what is reported.
pub proof fn law_abandoned_server_stops(
    s: server::StateView,
    empty_since: i64,
    idle: i64,
    now: i64,
)
    requires
        i64::MIN <= now - empty_since <= i64::MAX,
        i64::MIN <= now - s.last_activity_ms <= i64::MAX,
    ensures
        s.host_mode ==> (overdue(s, empty_since, idle, now) is Some <==> s.sandboxes.entries.len() == 0
            && now - empty_since > idle),
        s.host_mode && overdue(s, empty_since, idle, now) is Some ==> overdue(
            s,
            empty_since,
            idle,
            now,
        )->0 == now - empty_since,
        !s.host_mode ==> (overdue(s, empty_since, idle, now) is Some <==> now - s.last_activity_ms > idle
            && processes::running(s.procs.procs, None) == 0 && s.procs.active == 0),
        !s.host_mode && overdue(s, empty_since, idle, now) is Some ==> overdue(
            s,
            empty_since,
            idle,
            now,
        )->0 == now - s.last_activity_ms,
{
}

/// However far the two times are apart, the time without use is their difference in 64 bits.
pub proof fn law_time_without_use_is_a_difference(
    s: server::StateView,
    empty_since: i64,
    idle: i64,
    now: i64,
)
    ensures
        s.host_mode && overdue(s, empty_since, idle, now) is Some ==> overdue(
            s,
            empty_since,
            idle,
            now,
        )->0 == now.wrapping_sub(empty_since),
        s.host_mode && s.sandboxes.entries.len() == 0 ==> (overdue(s, empty_since, idle, now) is Some
            <==> now.wrapping_sub(empty_since) > idle),
        !s.host_mode && overdue(s, empty_since, idle, now) is Some ==> overdue(
            s,
            empty_since,
            idle,
            now,
        )->0 == now.wrapping_sub(s.last_activity_ms),
        !s.host_mode && overdue(s, empty_since, idle, now) is Some ==> now.wrapping_sub(
            s.last_activity_ms,
        ) > idle,
{
}

} // verus!
