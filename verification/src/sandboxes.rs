//! Host mode: many sandboxes inside one job.
//!
//! A sandbox is a uid of its own, a private home directory, a scrubbed environment and
//! limits. The registry knows which sandboxes live, hands out uids and slots, and takes
//! them back.

use vstd::prelude::*;

use crate::fsutil;
use crate::fsutil::{path_components, prefix_text};
use crate::json;
use crate::json::{list_doc, object_doc, text_doc, Doc};
use crate::number;
use crate::number::write_decimal;
use crate::procfs;
use crate::procfs::{ProcInfo, UID_BASE};
use crate::strmap::StrMap;
use crate::text;
use crate::text::str_eq;
use crate::uids;
use crate::uids::UidPool;

verus! {

/// Where the homes of sandboxes are.
pub const HOMES_DIR: &'static str = "/sbx/homes";

/// The directory in a home in which a sandbox binds the sockets of its ports.
pub const PROXY_SUBDIR: &'static str = ".sbx/proxy";

/// How many processes a sandbox may have when it was not said.
pub const DEFAULT_MAX_PROCS: u64 = 256;

/// How much memory a process of a sandbox may have when it was not said.
pub const DEFAULT_MAX_MEM_MB: u64 = 2048;

/// The most processes that may be asked for.
pub const MAX_PROCS_CEILING: u64 = 4096;

/// The most memory that may be asked for.
pub const MAX_MEM_MB_CEILING: u64 = 1048576;

/// How many open files a process of a sandbox may have.
pub const DEFAULT_MAX_FILES: u64 = 4096;

/// How large a file that a sandbox writes may become.
pub const DEFAULT_MAX_FILE_SIZE_MB: u64 = 8192;

/// How much processor time a process of a sandbox may take.
pub const DEFAULT_MAX_CPU_SECS: u64 = 86400;

/// The largest environment that may be asked for, in bytes of keys and values.
pub const MAX_ENV_BYTES: u64 = 65536;

/// How many random bytes the id of a sandbox is made of.
pub const ID_BYTES: usize = 8;

/// How many random bytes the token of a sandbox is made of.
pub const TOKEN_BYTES: usize = 32;

/// The most sandboxes that one request makes.
pub const MAX_BATCH: usize = 4096;

// ---------------------------------------------------------------------------
// Entries
// ---------------------------------------------------------------------------

/// How a sandbox is confined.
#[derive(Clone, Copy, Debug, PartialEq, Eq, Structural)]
pub enum Confinement {
    /// A Landlock ruleset, held by this descriptor.
    Landlock(i32),
    /// A uid of its own and a private home, and nothing else.
    UidOnly,
}

impl Confinement {
    /// What the kind of confinement is called.
    pub open spec fn name(self) -> Seq<char> {
        match self {
            Confinement::Landlock(_) => "landlock"@,
            Confinement::UidOnly => "uid-only"@,
        }
    }

    /// What the kind of confinement is called.
    pub fn label(&self) -> (r: &'static str)
        ensures
            r@ == self.name(),
    {
        match self {
            Confinement::Landlock(_) => "landlock",
            Confinement::UidOnly => "uid-only",
        }
    }
}

/// One sandbox.
pub struct SandboxEntry {
    pub id: String,
    pub uid: u32,
    pub home: String,
    pub created_at_ms: i64,
    pub env: StrMap,
    pub max_procs: u64,
    pub max_mem_mb: u64,
    /// The token that addresses this sandbox and nothing else.
    pub token: String,
    pub confinement: Confinement,
    /// The last time that a request addressed this sandbox.
    pub last_activity_ms: i64,
    /// After this long without a request it may be evicted; never when it is not positive.
    pub idle_timeout_ms: i64,
}

/// What an entry denotes.
pub struct EntryView {
    pub id: Seq<char>,
    pub uid: u32,
    pub home: Seq<char>,
    pub created_at_ms: i64,
    pub env: Seq<(Seq<char>, Seq<char>)>,
    pub max_procs: u64,
    pub max_mem_mb: u64,
    pub token: Seq<char>,
    pub confinement: Confinement,
    pub last_activity_ms: i64,
    pub idle_timeout_ms: i64,
}

impl View for SandboxEntry {
    type V = EntryView;

    open spec fn view(&self) -> EntryView {
        EntryView {
            id: self.id@,
            uid: self.uid,
            home: self.home@,
            created_at_ms: self.created_at_ms,
            env: self.env@,
            max_procs: self.max_procs,
            max_mem_mb: self.max_mem_mb,
            token: self.token@,
            confinement: self.confinement,
            last_activity_ms: self.last_activity_ms,
            idle_timeout_ms: self.idle_timeout_ms,
        }
    }
}

/// What a run of entries denotes.
pub open spec fn entry_views(v: Seq<SandboxEntry>) -> Seq<EntryView> {
    Seq::new(v.len(), |i: int| v[i]@)
}

/// The first position, from `i` on, at which a sandbox has the given id; the length when
/// none has.
pub open spec fn entry_from(s: Seq<EntryView>, id: Seq<char>, i: int) -> int
    decreases s.len() - i,
{
    if i >= s.len() {
        s.len() as int
    } else if s[i].id == id {
        i
    } else {
        entry_from(s, id, i + 1)
    }
}

/// The sandbox with the given id.
pub open spec fn entry_of(s: Seq<EntryView>, id: Seq<char>) -> Option<EntryView> {
    let p = entry_from(s, id, 0);
    if p < s.len() {
        Some(s[p])
    } else {
        None
    }
}

/// `entry_from` is the first position of the id.
pub proof fn lemma_entry(s: Seq<EntryView>, id: Seq<char>, i: int)
    requires
        0 <= i <= s.len(),
    ensures
        i <= entry_from(s, id, i) <= s.len(),
        entry_from(s, id, i) < s.len() ==> s[entry_from(s, id, i)].id == id,
        forall|j: int| i <= j < entry_from(s, id, i) ==> (#[trigger] s[j]).id != id,
    decreases s.len() - i,
{
    if i < s.len() && s[i].id != id {
        lemma_entry(s, id, i + 1);
    }
}

/// The sandboxes after one was added: in the place of one with the same id, or behind
/// the others.
pub open spec fn with_entry(s: Seq<EntryView>, e: EntryView) -> Seq<EntryView> {
    let p = entry_from(s, e.id, 0);
    if p < s.len() {
        s.update(p, e)
    } else {
        s.push(e)
    }
}

/// The path of something in the homes directory.
pub open spec fn home_of(id: Seq<char>) -> Seq<char> {
    HOMES_DIR@ + "/"@ + id
}

/// The entry of a sandbox that has just been made.
pub open spec fn new_entry(
    uid: u32,
    id: Seq<char>,
    token: Seq<char>,
    env: Seq<(Seq<char>, Seq<char>)>,
    max_procs: Option<u64>,
    max_mem_mb: Option<u64>,
    idle_timeout_ms: i64,
    confinement: Confinement,
    now: i64,
) -> EntryView {
    EntryView {
        id,
        uid,
        home: home_of(id),
        created_at_ms: now,
        env,
        max_procs: match max_procs {
            Some(n) => n,
            None => DEFAULT_MAX_PROCS,
        },
        max_mem_mb: match max_mem_mb {
            Some(n) => n,
            None => DEFAULT_MAX_MEM_MB,
        },
        token,
        confinement,
        last_activity_ms: now,
        idle_timeout_ms,
    }
}

/// Whether a sandbox was without a request for longer than it may be.
pub open spec fn is_idle(e: EntryView, now: i64) -> bool {
    e.idle_timeout_ms > 0 && now.wrapping_sub(e.last_activity_ms) > e.idle_timeout_ms
}

/// The ids of the sandboxes that are idle.
pub open spec fn idle_ids(s: Seq<EntryView>, now: i64) -> Seq<Seq<char>>
    decreases s.len(),
{
    if s.len() == 0 {
        Seq::empty()
    } else if is_idle(s.last(), now) {
        idle_ids(s.drop_last(), now).push(s.last().id)
    } else {
        idle_ids(s.drop_last(), now)
    }
}

/// The ids of sandboxes.
pub open spec fn ids_of(s: Seq<EntryView>) -> Seq<Seq<char>> {
    Seq::new(s.len(), |i: int| s[i].id)
}

/// How a sandbox is listed.
pub open spec fn listed(e: EntryView) -> json::JsonView {
    json::object(
        seq![
            ("id"@, json::JsonView::Str(e.id)),
            ("uid"@, json::JsonView::Int(e.uid as int)),
            ("home"@, json::JsonView::Str(e.home)),
            ("created_at_ms"@, json::JsonView::Int(e.created_at_ms as int)),
            ("confinement"@, json::JsonView::Str(e.confinement.name())),
        ],
    )
}

// ---------------------------------------------------------------------------
// The registry
// ---------------------------------------------------------------------------

/// Why a sandbox was not made.
pub enum CreateError {
    /// The host is full, so the sandbox belongs on another one.
    Full,
    /// Something of it could not be made.
    Io(String),
}

/// The sandboxes of a host.
pub struct SandboxRegistry {
    pub entries: Vec<SandboxEntry>,
    /// The most sandboxes at a time.
    pub capacity: usize,
    /// How many slots are taken. A slot is taken before anything of the sandbox is made,
    /// so that two requests cannot both get the last one.
    pub reserved: usize,
    /// Whether a sandbox may be made that is confined by its uid only.
    pub allow_unconfined: bool,
    pub uids: UidPool,
    /// The uids of sandboxes that are being made.
    pub creating: Vec<u32>,
    /// The uids of sandboxes that are being deleted.
    pub deleting: Vec<u32>,
}

/// What a registry denotes.
pub struct RegistryView {
    pub entries: Seq<EntryView>,
    pub capacity: usize,
    pub reserved: usize,
    pub allow_unconfined: bool,
    pub uids: uids::PoolView,
    pub creating: Seq<u32>,
    pub deleting: Seq<u32>,
}

impl View for SandboxRegistry {
    type V = RegistryView;

    open spec fn view(&self) -> RegistryView {
        RegistryView {
            entries: entry_views(self.entries@),
            capacity: self.capacity,
            reserved: self.reserved,
            allow_unconfined: self.allow_unconfined,
            uids: self.uids@,
            creating: self.creating@,
            deleting: self.deleting@,
        }
    }
}

/// Whether a uid was handed out and not given back.
pub open spec fn handed_out(p: uids::PoolView, uid: u32) -> bool {
    &&& UID_BASE <= uid < UID_BASE + p.next
    &&& !p.free.contains(uid)
    &&& !p.quarantined.contains(uid)
}

/// Whether no value stands twice.
pub open spec fn no_twice(s: Seq<u32>) -> bool {
    forall|i: int, j: int| 0 <= i < j < s.len() ==> #[trigger] s[i] != #[trigger] s[j]
}

impl RegistryView {
    /// Whether a live sandbox has the uid.
    pub open spec fn lives(self, uid: u32) -> bool {
        exists|i: int| 0 <= i < self.entries.len() && (#[trigger] self.entries[i]).uid == uid
    }

    /// What holds of every registry: no two sandboxes have the same id or the same uid,
    /// whether they live, are being made or are being deleted; their uids are handed out;
    /// and no more slots are taken than there are.
    pub open spec fn wf(self) -> bool {
        &&& self.uids.next <= uids::range_len()
        &&& no_twice(self.uids.free)
        &&& forall|i: int|
            0 <= i < self.uids.free.len() ==> UID_BASE <= #[trigger] self.uids.free[i] < UID_BASE
                + self.uids.next
        &&& forall|i: int, j: int|
            0 <= i < j < self.entries.len() ==> (#[trigger] self.entries[i]).id != (
            #[trigger] self.entries[j]).id && self.entries[i].uid != self.entries[j].uid
        &&& no_twice(self.creating)
        &&& no_twice(self.deleting)
        &&& forall|i: int|
            0 <= i < self.entries.len() ==> handed_out(self.uids, (#[trigger] self.entries[i]).uid)
        &&& forall|i: int|
            0 <= i < self.creating.len() ==> handed_out(self.uids, #[trigger] self.creating[i])
                && !self.lives(self.creating[i]) && !self.deleting.contains(self.creating[i])
        &&& forall|i: int|
            0 <= i < self.deleting.len() ==> handed_out(self.uids, #[trigger] self.deleting[i])
                && !self.lives(self.deleting[i])
        &&& self.entries.len() + self.creating.len() <= self.reserved
        &&& self.reserved <= self.capacity
    }

    /// The slots that are still free, up to the size of one request.
    pub open spec fn room(self) -> int {
        if self.capacity <= self.reserved {
            0
        } else if self.capacity - self.reserved < MAX_BATCH {
            self.capacity - self.reserved
        } else {
            MAX_BATCH as int
        }
    }
}

impl SandboxRegistry {
    /// What holds of every registry.
    pub open spec fn wf(&self) -> bool {
        self@.wf()
    }

    /// A registry without sandboxes, which never hands out the uids that are in use.
    pub fn new(capacity: usize, allow_unconfined: bool, in_use: &Vec<u32>) -> (r: SandboxRegistry)
        ensures
            r.wf(),
            r@.entries == Seq::<EntryView>::empty(),
            r@.capacity == capacity,
            r@.reserved == 0,
            r@.allow_unconfined == allow_unconfined,
            r@.uids == (uids::PoolView { next: 0, free: Seq::empty(), quarantined: in_use@ }),
            r@.creating == Seq::<u32>::empty(),
            r@.deleting == Seq::<u32>::empty(),
    {
        let r = SandboxRegistry {
            entries: Vec::new(),
            capacity,
            reserved: 0,
            allow_unconfined,
            uids: UidPool::with_reserved(in_use),
            creating: Vec::new(),
            deleting: Vec::new(),
        };
        assert(r@.entries =~= Seq::<EntryView>::empty());
        r
    }

    fn position(&self, id: &str) -> (p: usize)
        ensures
            p == entry_from(self@.entries, id@, 0),
            p <= self.entries@.len(),
    {
        let mut i: usize = 0;
        while i < self.entries.len()
            invariant
                i <= self.entries@.len(),
                entry_from(self@.entries, id@, 0) == entry_from(self@.entries, id@, i as int),
            decreases self.entries@.len() - i,
        {
            if str_eq(self.entries[i].id.as_str(), id) {
                return i;
            }
            i += 1;
        }
        i
    }

    /// The sandbox with the given id.
    pub fn get(&self, id: &str) -> (r: Option<&SandboxEntry>)
        ensures
            match r {
                Some(e) => entry_of(self@.entries, id@) == Some(e@),
                None => entry_of(self@.entries, id@) is None,
            },
            r matches Some(e) ==> e.id@ == id@ && exists|i: int|
                0 <= i < self.entries@.len() && #[trigger] self.entries@[i] == *e,
            r is None ==> forall|i: int|
                0 <= i < self.entries@.len() ==> (#[trigger] self.entries@[i]).id@ != id@,
    {
        let p = self.position(id);
        proof {
            lemma_entry(self@.entries, id@, 0);
        }
        if p < self.entries.len() {
            assert(self@.entries[p as int] == self.entries@[p as int]@);
            Some(&self.entries[p])
        } else {
            assert forall|i: int| 0 <= i < self.entries@.len() implies (
            #[trigger] self.entries@[i]).id@ != id@ by {
                assert(self@.entries[i].id != id@);
            }
            None
        }
    }

    /// The ids of all sandboxes.
    pub fn ids(&self) -> (r: Vec<String>)
        ensures
            text::strings(r@) == ids_of(self@.entries),
            r@.len() == self.entries@.len(),
            forall|i: int| 0 <= i < r@.len() ==> (#[trigger] r@[i])@ == self.entries@[i].id@,
    {
        let mut r: Vec<String> = Vec::new();
        let mut i: usize = 0;
        while i < self.entries.len()
            invariant
                i <= self.entries@.len(),
                r@.len() == i,
                forall|j: int| 0 <= j < i ==> (#[trigger] r@[j])@ == self.entries@[j].id@,
            decreases self.entries@.len() - i,
        {
            r.push(self.entries[i].id.clone());
            i += 1;
        }
        assert(text::strings(r@) =~= ids_of(self@.entries));
        r
    }

    /// How many sandboxes live.
    pub fn count(&self) -> (n: usize)
        ensures
            n == self@.entries.len(),
            n == self.entries@.len(),
    {
        self.entries.len()
    }

    /// How many more sandboxes one request may make.
    pub fn remaining_capacity(&self) -> (n: usize)
        ensures
            n == self@.room(),
            self.reserved <= self.capacity ==> n == (if self.capacity - self.reserved < 4096 {
                self.capacity - self.reserved
            } else {
                4096
            }),
    {
        let left: usize = self.capacity.saturating_sub(self.reserved);
        if left < MAX_BATCH {
            left
        } else {
            MAX_BATCH
        }
    }

    /// The ids of the sandboxes that are idle. Whether they still have work is another
    /// question.
    pub fn idle_candidates(&self, now: i64) -> (r: Vec<String>)
        ensures
            text::strings(r@) == idle_ids(self@.entries, now),
    {
        let ghost all = self@.entries;
        let mut r: Vec<String> = Vec::new();
        let mut i: usize = 0;
        assert(all.take(0) =~= Seq::<EntryView>::empty());
        assert(text::strings(r@) =~= Seq::<Seq<char>>::empty());
        while i < self.entries.len()
            invariant
                i <= self.entries@.len(),
                all == self@.entries,
                text::strings(r@) == idle_ids(all.take(i as int), now),
            decreases self.entries@.len() - i,
        {
            let e = &self.entries[i];
            let ghost before = r@;
            proof {
                assert(all.take(i + 1).drop_last() =~= all.take(i as int));
                assert(all.take(i + 1).last() == e@);
            }
            if e.idle_timeout_ms > 0 && now.wrapping_sub(e.last_activity_ms) > e.idle_timeout_ms {
                r.push(e.id.clone());
                assert(text::strings(r@) =~= text::strings(before).push(e@.id));
            }
            i += 1;
        }
        assert(all.take(all.len() as int) =~= all);
        r
    }

    /// The list of sandboxes, as a client gets it.
    pub fn list(&self) -> (r: Doc)
        ensures
            r.tree() == json::JsonView::Array(
                Seq::new(self@.entries.len(), |i: int| listed(self@.entries[i])),
            ),
    {
        let mut items: Vec<Doc> = Vec::new();
        let mut i: usize = 0;
        while i < self.entries.len()
            invariant
                i <= self.entries@.len(),
                items@.len() == i,
                forall|j: int| 0 <= j < i ==> (#[trigger] items@[j]).tree() == listed(self.entries@[j]@),
            decreases self.entries@.len() - i,
        {
            let e = &self.entries[i];
            let mut members: Vec<(&'static str, Doc)> = Vec::new();
            members.push(("id", text_doc(e.id.as_str())));
            members.push(("uid", Doc::Uint(e.uid as u64)));
            members.push(("home", text_doc(e.home.as_str())));
            members.push(("created_at_ms", Doc::Int(e.created_at_ms)));
            members.push(("confinement", text_doc(e.confinement.label())));
            assert(json::doc_members(members@) =~= seq![
                ("id"@, json::JsonView::Str(e@.id)),
                ("uid"@, json::JsonView::Int(e@.uid as int)),
                ("home"@, json::JsonView::Str(e@.home)),
                ("created_at_ms"@, json::JsonView::Int(e@.created_at_ms as int)),
                ("confinement"@, json::JsonView::Str(e@.confinement.name())),
            ]);
            items.push(object_doc(members));
            i += 1;
        }
        assert(json::doc_trees(items@) =~= Seq::new(
            self@.entries.len(),
            |i: int| listed(self@.entries[i]),
        ));
        list_doc(items)
    }

    /// Notes that a request addressed a sandbox.
    pub fn touch(&mut self, id: &str, now: i64)
        ensures
            final(self)@ == touched(old(self)@, id@, now),
            old(self).wf() ==> final(self).wf(),
    {
        let p = self.position(id);
        let ghost before = self@;
        if p < self.entries.len() {
            self.entries[p].last_activity_ms = now;
            assert(self@.entries =~= before.entries.update(
                p as int,
                EntryView { last_activity_ms: now, ..before.entries[p as int] },
            ));
        }
        assert(self@ == touched(before, id@, now));
        proof {
            if before.wf() {
                lemma_touched(before, id@, now);
            }
        }
    }

    /// Takes a slot and a uid for a sandbox that is to be made. A range of uids that is
    /// used up is the same to the client as a full host.
    pub fn reserve(&mut self, procs: &Vec<ProcInfo>) -> (r: Result<u32, CreateError>)
        ensures
            final(self)@ == reserved_for(old(self)@, procfs::proc_views(procs@)).0,
            match r {
                Ok(uid) => reserved_for(old(self)@, procfs::proc_views(procs@)).1 == Some(uid),
                Err(e) => e is Full && reserved_for(old(self)@, procfs::proc_views(procs@)).1 is None,
            },
            old(self).wf() ==> final(self).wf(),
    {
        let ghost before = self@;
        let ghost ps = procfs::proc_views(procs@);
        if self.reserved >= self.capacity {
            return Err(CreateError::Full);
        }
        let uid = self.uids.take(procs);
        proof {
            if before.wf() {
                lemma_reserved(before, ps);
            }
        }
        match uid {
            None => {
                assert(self@ == reserved_for(before, ps).0);
                Err(CreateError::Full)
            },
            Some(uid) => {
                self.reserved = self.reserved + 1;
                self.creating.push(uid);
                assert(self@ == reserved_for(before, ps).0);
                Ok(uid)
            },
        }
    }

    /// Enters a sandbox that has been made, under the uid that was reserved for it.
    pub fn create(
        &mut self,
        uid: u32,
        id: String,
        token: String,
        env: StrMap,
        max_procs: Option<u64>,
        max_mem_mb: Option<u64>,
        idle_timeout_ms: i64,
        confinement: Confinement,
        now: i64,
    )
        requires
            old(self).wf(),
            old(self)@.creating.contains(uid),
        ensures
            final(self)@ == entered(
                old(self)@,
                new_entry(
                    uid,
                    id@,
                    token@,
                    env@,
                    max_procs,
                    max_mem_mb,
                    idle_timeout_ms,
                    confinement,
                    now,
                ),
            ),
            final(self).wf(),
            exists|i: int|
                0 <= i < final(self).entries@.len() && (#[trigger] final(self).entries@[i]).id@ == id@
                    && final(self).entries@[i].uid == uid && final(self).entries@[i].token@ == token@
                    && final(self).entries@[i].env@ == env@ && final(self).entries@[i].confinement
                    == confinement && final(self).entries@[i].created_at_ms == now
                    && final(self).entries@[i].last_activity_ms == now
                    && final(self).entries@[i].idle_timeout_ms == idle_timeout_ms
                    && final(self).entries@[i].home@ == "/sbx/homes"@ + "/"@ + id@
                    && final(self).entries@[i].max_procs == (match max_procs {
                    Some(n) => n,
                    None => 256,
                }) && final(self).entries@[i].max_mem_mb == (match max_mem_mb {
                    Some(n) => n,
                    None => 2048,
                }),
    {
        let ghost before = self@;
        let ghost e = new_entry(
            uid,
            id@,
            token@,
            env@,
            max_procs,
            max_mem_mb,
            idle_timeout_ms,
            confinement,
            now,
        );
        let p = self.position(id.as_str());
        let home = home_path(id.as_str());
        let entry = SandboxEntry {
            id,
            uid,
            home,
            created_at_ms: now,
            env,
            max_procs: max_procs.unwrap_or(DEFAULT_MAX_PROCS),
            max_mem_mb: max_mem_mb.unwrap_or(DEFAULT_MAX_MEM_MB),
            token,
            confinement,
            last_activity_ms: now,
            idle_timeout_ms,
        };
        assert(entry@ == e);
        let ghost made = entry;
        if p < self.entries.len() {
            self.entries.set(p, entry);
        } else {
            self.entries.push(entry);
        }
        assert(self.entries@[p as int] == made);
        assert(self@.entries =~= with_entry(before.entries, e));
        drop_uid(&mut self.creating, uid);
        assert(self@ == entered(before, e));
        proof {
            lemma_entered(before, e);
        }
    }

    /// Gives up a sandbox that could not be made. Its uid was never used, so it is clean.
    pub fn abort(&mut self, uid: u32)
        requires
            old(self).wf(),
            old(self)@.creating.contains(uid),
        ensures
            final(self)@ == aborted(old(self)@, uid),
            final(self).wf(),
    {
        let ghost before = self@;
        assert(self.creating@.len() > 0);
        self.reserved = self.reserved - 1;
        self.uids.release(uid);
        drop_uid(&mut self.creating, uid);
        assert(self@ == aborted(before, uid));
        proof {
            lemma_aborted(before, uid);
        }
    }

    /// Takes a sandbox out of the registry, so that its processes and its home can be
    /// removed. Its slot is free at once, its uid only when that is done.
    pub fn delete(&mut self, id: &str) -> (r: Option<SandboxEntry>)
        requires
            old(self).wf(),
        ensures
            match r {
                Some(e) => entry_of(old(self)@.entries, id@) == Some(e@) && final(self)@ == removed(
                    old(self)@,
                    id@,
                ),
                None => entry_of(old(self)@.entries, id@) is None && final(self)@ == old(self)@,
            },
            final(self).wf(),
    {
        let ghost before = self@;
        let p = self.position(id);
        if p >= self.entries.len() {
            return None;
        }
        let entry = self.entries.remove(p);
        assert(self@.entries =~= before.entries.remove(p as int));
        assert(entry@ == before.entries[p as int]);
        self.reserved = self.reserved - 1;
        self.deleting.push(entry.uid);
        assert(self@ == removed(before, id@));
        proof {
            lemma_removed(before, id@);
        }
        Some(entry)
    }

    /// Ends the deletion of a sandbox. Its uid is free again only when no process of it is
    /// left (`converged`) and its home is gone (`home_error` is nothing); otherwise it is
    /// quarantined, because the next sandbox under it would get what is left.
    pub fn finish_delete(
        &mut self,
        id: &str,
        uid: u32,
        converged: bool,
        home_error: Option<&str>,
    ) -> (r: Result<(), String>)
        requires
            old(self).wf(),
            old(self)@.deleting.contains(uid),
        ensures
            final(self)@ == settled(old(self)@, uid, converged && home_error is None),
            final(self).wf(),
            match r {
                Ok(_) => converged && home_error is None,
                Err(m) => if !converged {
                    m@ == survivors_text(id@, uid)
                } else {
                    home_error is Some && m@ == home_left_text(id@, home_error->0@)
                },
            },
    {
        let ghost before = self@;
        let clean = converged && home_error.is_none();
        if clean {
            self.uids.release(uid);
        } else {
            self.uids.quarantine(uid);
        }
        drop_uid(&mut self.deleting, uid);
        assert(self@ == settled(before, uid, clean));
        proof {
            lemma_settled(before, uid, clean);
        }
        if !converged {
            let mut m: String = "sandbox ".to_owned();
            m.append(id);
            m.append(" was removed but processes under uid ");
            m.append(write_decimal(uid as u64).as_str());
            m.append(" survived the kill sweep");
            return Err(m);
        }
        match home_error {
            Some(e) => {
                let mut m: String = "sandbox ".to_owned();
                m.append(id);
                m.append(" was removed but its home could not be deleted: ");
                m.append(e);
                Err(m)
            },
            None => Ok(()),
        }
    }
}

/// What is said of a sandbox whose processes could not all be killed.
pub open spec fn survivors_text(id: Seq<char>, uid: u32) -> Seq<char> {
    "sandbox "@ + id + " was removed but processes under uid "@ + number::decimal(uid as nat)
        + " survived the kill sweep"@
}

/// What is said of a sandbox whose home could not be removed.
pub open spec fn home_left_text(id: Seq<char>, error: Seq<char>) -> Seq<char> {
    "sandbox "@ + id + " was removed but its home could not be deleted: "@ + error
}

/// A registry after a slot and a uid were asked for, and the uid.
pub open spec fn reserved_for(r: RegistryView, procs: Seq<procfs::ProcView>) -> (
    RegistryView,
    Option<u32>,
) {
    if r.reserved >= r.capacity {
        (r, None)
    } else {
        let (pool, uid) = uids::taken(r.uids, procs);
        match uid {
            None => (RegistryView { uids: pool, ..r }, None),
            Some(u) => (
                RegistryView {
                    uids: pool,
                    reserved: (r.reserved + 1) as usize,
                    creating: r.creating.push(u),
                    ..r
                },
                Some(u),
            ),
        }
    }
}

/// A registry after a sandbox was entered.
pub open spec fn entered(r: RegistryView, e: EntryView) -> RegistryView {
    RegistryView {
        entries: with_entry(r.entries, e),
        creating: without(r.creating, e.uid),
        ..r
    }
}

/// A registry after a sandbox was given up.
pub open spec fn aborted(r: RegistryView, uid: u32) -> RegistryView {
    RegistryView {
        reserved: (r.reserved - 1) as usize,
        uids: uids::PoolView { free: r.uids.free.push(uid), ..r.uids },
        creating: without(r.creating, uid),
        ..r
    }
}

/// A registry after a sandbox was taken out of it.
pub open spec fn removed(r: RegistryView, id: Seq<char>) -> RegistryView {
    let p = entry_from(r.entries, id, 0);
    RegistryView {
        entries: r.entries.remove(p),
        reserved: (r.reserved - 1) as usize,
        deleting: r.deleting.push(r.entries[p].uid),
        ..r
    }
}

/// A registry after the deletion of a sandbox came to its end.
pub open spec fn settled(r: RegistryView, uid: u32, clean: bool) -> RegistryView {
    RegistryView {
        uids: if clean {
            uids::PoolView { free: r.uids.free.push(uid), ..r.uids }
        } else {
            uids::PoolView { quarantined: r.uids.quarantined.push(uid), ..r.uids }
        },
        deleting: without(r.deleting, uid),
        ..r
    }
}

/// A list without a uid.
pub open spec fn without(s: Seq<u32>, uid: u32) -> Seq<u32>
    decreases s.len(),
{
    if s.len() == 0 {
        s
    } else if s.last() == uid {
        without(s.drop_last(), uid)
    } else {
        without(s.drop_last(), uid).push(s.last())
    }
}

proof fn lemma_without(s: Seq<u32>, uid: u32)
    ensures
        forall|x: u32| #[trigger] without(s, uid).contains(x) <==> s.contains(x) && x != uid,
        no_twice(s) ==> no_twice(without(s, uid)),
        without(s, uid).len() <= s.len(),
        s.contains(uid) ==> without(s, uid).len() < s.len(),
    decreases s.len(),
{
    let w = without(s, uid);
    if s.len() > 0 {
        let front = s.drop_last();
        lemma_without(front, uid);
        let f = without(front, uid);
        assert(s[s.len() - 1] == s.last());
        assert forall|x: u32| #[trigger] w.contains(x) <==> s.contains(x) && x != uid by {
            if s.contains(x) {
                let i = choose|i: int| 0 <= i < s.len() && s[i] == x;
                if i < front.len() {
                    assert(front[i] == x);
                    assert(front.contains(x));
                }
            }
            if front.contains(x) {
                let i = choose|i: int| 0 <= i < front.len() && front[i] == x;
                assert(s[i] == x);
            }
            if f.contains(x) && s.last() != uid {
                let i = choose|i: int| 0 <= i < f.len() && f[i] == x;
                assert(w[i] == x);
            }
            if w.contains(x) && s.last() != uid {
                let i = choose|i: int| 0 <= i < w.len() && w[i] == x;
                if i < f.len() {
                    assert(f[i] == x);
                    assert(f.contains(x));
                }
            }
            if s.last() != uid && x == s.last() {
                assert(w[w.len() - 1] == x);
            }
        }
        if no_twice(s) {
            assert(no_twice(front)) by {
                assert forall|i: int, j: int| 0 <= i < j < front.len() implies #[trigger] front[i]
                    != #[trigger] front[j] by {
                    assert(s[i] != s[j]);
                }
            }
            assert forall|i: int, j: int| 0 <= i < j < w.len() implies #[trigger] w[i]
                != #[trigger] w[j] by {
                if s.last() == uid {
                } else if j < f.len() {
                    assert(f[i] != f[j]);
                } else {
                    assert(f[i] == w[i]);
                    assert(f.contains(f[i]));
                    assert(front.contains(f[i]));
                    let k = choose|k: int| 0 <= k < front.len() && front[k] == f[i];
                    assert(s[k] != s[s.len() - 1]);
                }
            }
        }
        if s.contains(uid) && s.last() != uid {
            let i = choose|i: int| 0 <= i < s.len() && s[i] == uid;
            assert(front[i] == uid);
        }
    }
}

/// Drops a uid from a list.
fn drop_uid(list: &mut Vec<u32>, uid: u32)
    ensures
        final(list)@ == without(old(list)@, uid),
{
    let ghost all = list@;
    let mut kept: Vec<u32> = Vec::new();
    let mut i: usize = 0;
    assert(all.take(0) =~= Seq::<u32>::empty());
    while i < list.len()
        invariant
            i <= list@.len(),
            all == list@,
            kept@ == without(all.take(i as int), uid),
        decreases list@.len() - i,
    {
        proof {
            assert(all.take(i + 1).drop_last() =~= all.take(i as int));
            assert(all.take(i + 1).last() == all[i as int]);
        }
        if list[i] != uid {
            kept.push(list[i]);
        }
        i += 1;
    }
    assert(all.take(all.len() as int) =~= all);
    *list = kept;
}

/// The path of the home of a sandbox.
fn home_path(id: &str) -> (r: String)
    ensures
        r@ == home_of(id@),
{
    let mut r: String = HOMES_DIR.to_owned();
    r.append("/");
    r.append(id);
    r
}

/// A uid that was handed out stays so while others are taken.
proof fn lemma_still_out(p: uids::PoolView, procs: Seq<procfs::ProcView>, uid: u32)
    requires
        handed_out(p, uid),
    ensures
        handed_out(uids::taken(p, procs).0, uid),
{
    uids::lemma_reuse(p, procs);
    let rest = uids::reuse(p, procs).0;
    uids::lemma_fresh(rest);
    if rest.free.contains(uid) {
        let i = choose|i: int| 0 <= i < rest.free.len() && rest.free[i] == uid;
        assert(p.free[i] == uid);
    }
    if rest.quarantined.contains(uid) {
        let i = choose|i: int| 0 <= i < rest.quarantined.len() && rest.quarantined[i] == uid;
        if i < p.quarantined.len() {
            assert(rest.quarantined.take(p.quarantined.len() as int)[i] == p.quarantined[i]);
        } else {
            assert(p.free.contains(rest.quarantined[i]));
        }
    }
}

/// A uid that is taken was not out before, and is out after.
proof fn lemma_newly_out(p: uids::PoolView, procs: Seq<procfs::ProcView>)
    requires
        p.next <= uids::range_len(),
        no_twice(p.free),
        forall|i: int|
            0 <= i < p.free.len() ==> UID_BASE <= #[trigger] p.free[i] < UID_BASE + p.next,
    ensures
        ({
            let (q, uid) = uids::taken(p, procs);
            &&& q.next <= uids::range_len()
            &&& no_twice(q.free)
            &&& forall|i: int|
                0 <= i < q.free.len() ==> UID_BASE <= #[trigger] q.free[i] < UID_BASE + q.next
            &&& uid matches Some(u) ==> !handed_out(p, u) && handed_out(q, u)
        }),
{
    uids::lemma_reuse(p, procs);
    uids::law_quarantined_uid_is_never_handed_out(p, procs);
    let rest = uids::reuse(p, procs).0;
    uids::lemma_fresh(rest);
    let (q, uid) = uids::taken(p, procs);
    assert(q.free == rest.free);
    assert forall|i: int| 0 <= i < q.free.len() implies UID_BASE <= #[trigger] q.free[i] < UID_BASE
        + q.next by {
        assert(q.free[i] == p.free[i]);
    }
    assert forall|i: int, j: int| 0 <= i < j < q.free.len() implies #[trigger] q.free[i]
        != #[trigger] q.free[j] by {
        assert(p.free[i] != p.free[j]);
    }
    match uid {
        Some(u) => {
            if uids::reuse(p, procs).1 is Some {
                let k = rest.free.len() as int;
                assert(p.free[k] == u);
                assert(p.free.contains(u));
                if q.free.contains(u) {
                    let i = choose|i: int| 0 <= i < q.free.len() && q.free[i] == u;
                    assert(p.free[i] == u);
                    assert(p.free[i] != p.free[k]);
                }
            }
        },
        None => {},
    }
}

proof fn lemma_reserved(r: RegistryView, procs: Seq<procfs::ProcView>)
    requires
        r.wf(),
    ensures
        reserved_for(r, procs).0.wf(),
{
    if r.reserved < r.capacity {
        let t = reserved_for(r, procs).0;
        let (pool, uid) = uids::taken(r.uids, procs);
        lemma_newly_out(r.uids, procs);
        assert forall|x: u32| t.lives(x) == r.lives(x) by {
            assert(t.entries == r.entries);
        }
        assert forall|i: int| 0 <= i < t.entries.len() implies handed_out(
            t.uids,
            (#[trigger] t.entries[i]).uid,
        ) by {
            lemma_still_out(r.uids, procs, r.entries[i].uid);
        }
        assert forall|i: int| 0 <= i < t.creating.len() implies handed_out(
            t.uids,
            #[trigger] t.creating[i],
        ) && !t.lives(t.creating[i]) && !t.deleting.contains(t.creating[i]) by {
            if i < r.creating.len() {
                assert(t.creating[i] == r.creating[i]);
                lemma_still_out(r.uids, procs, r.creating[i]);
            } else {
                let u = t.creating[i];
                if r.lives(u) {
                    let k = choose|k: int| 0 <= k < r.entries.len() && (#[trigger] r.entries[k]).uid == u;
                    assert(handed_out(r.uids, r.entries[k].uid));
                }
                if r.deleting.contains(u) {
                    let k = choose|k: int| 0 <= k < r.deleting.len() && r.deleting[k] == u;
                    assert(handed_out(r.uids, r.deleting[k]));
                }
            }
        }
        assert forall|i: int| 0 <= i < t.deleting.len() implies handed_out(
            t.uids,
            #[trigger] t.deleting[i],
        ) && !t.lives(t.deleting[i]) by {
            lemma_still_out(r.uids, procs, r.deleting[i]);
        }
        assert(no_twice(t.creating)) by {
            assert forall|i: int, j: int| 0 <= i < j < t.creating.len() implies #[trigger] t.creating[i]
                != #[trigger] t.creating[j] by {
                if j < r.creating.len() {
                    assert(r.creating[i] != r.creating[j]);
                } else {
                    assert(t.creating[i] == r.creating[i]);
                    assert(handed_out(r.uids, r.creating[i]));
                }
            }
        }
    }
}

proof fn lemma_entered(r: RegistryView, e: EntryView)
    requires
        r.wf(),
        r.creating.contains(e.uid),
    ensures
        entered(r, e).wf(),
{
    let t = entered(r, e);
    lemma_entry(r.entries, e.id, 0);
    lemma_without(r.creating, e.uid);
    let k = choose|k: int| 0 <= k < r.creating.len() && r.creating[k] == e.uid;
    assert(handed_out(r.uids, r.creating[k]));
    let p = entry_from(r.entries, e.id, 0);
    assert forall|i: int| 0 <= i < t.entries.len() implies (if i == p {
        t.entries[i] == e
    } else {
        i < r.entries.len() && #[trigger] t.entries[i] == r.entries[i]
    }) by {}
    assert forall|i: int| 0 <= i < r.entries.len() implies (#[trigger] r.entries[i]).uid != e.uid by {
        assert(!r.lives(r.creating[k]));
    }
    assert forall|i: int, j: int| 0 <= i < j < t.entries.len() implies (#[trigger] t.entries[i]).id
        != (#[trigger] t.entries[j]).id && t.entries[i].uid != t.entries[j].uid by {
        if i != p && j != p {
            assert(r.entries[i].id != r.entries[j].id);
        } else if j == p {
            assert(t.entries[i] == r.entries[i]);
            assert(r.entries[i].id != e.id);
        } else {
            assert(t.entries[j] == r.entries[j]);
            assert(r.entries[p].id != r.entries[j].id);
        }
    }
    assert forall|x: u32| t.lives(x) implies r.lives(x) || x == e.uid by {
        let i = choose|i: int| 0 <= i < t.entries.len() && (#[trigger] t.entries[i]).uid == x;
        if i != p {
            assert(r.entries[i].uid == x);
        }
    }
    assert forall|i: int| 0 <= i < t.entries.len() implies handed_out(
        t.uids,
        (#[trigger] t.entries[i]).uid,
    ) by {
        if i != p {
            assert(handed_out(r.uids, r.entries[i].uid));
        }
    }
    assert forall|i: int| 0 <= i < t.creating.len() implies handed_out(
        t.uids,
        #[trigger] t.creating[i],
    ) && !t.lives(t.creating[i]) && !t.deleting.contains(t.creating[i]) by {
        let u = t.creating[i];
        assert(t.creating.contains(u));
        assert(r.creating.contains(u));
        let m = choose|m: int| 0 <= m < r.creating.len() && r.creating[m] == u;
        assert(handed_out(r.uids, r.creating[m]));
    }
    assert forall|i: int| 0 <= i < t.deleting.len() implies handed_out(
        t.uids,
        #[trigger] t.deleting[i],
    ) && !t.lives(t.deleting[i]) by {
        assert(handed_out(r.uids, r.deleting[i]));
        if r.deleting[i] == e.uid {
            assert(r.deleting.contains(r.creating[k]));
        }
    }
}

/// Pushing a uid that was out onto the free ones leaves the others out.
proof fn lemma_freed(p: uids::PoolView, uid: u32, other: u32)
    requires
        handed_out(p, other),
        other != uid,
    ensures
        handed_out(uids::PoolView { free: p.free.push(uid), ..p }, other),
        handed_out(uids::PoolView { quarantined: p.quarantined.push(uid), ..p }, other),
{
    let f = p.free.push(uid);
    if f.contains(other) {
        let i = choose|i: int| 0 <= i < f.len() && f[i] == other;
        if i < p.free.len() {
            assert(p.free[i] == other);
        }
    }
    let q = p.quarantined.push(uid);
    if q.contains(other) {
        let i = choose|i: int| 0 <= i < q.len() && q[i] == other;
        if i < p.quarantined.len() {
            assert(p.quarantined[i] == other);
        }
    }
}

/// Pushing a uid that was out onto the free ones keeps them in order.
proof fn lemma_free_list(p: uids::PoolView, uid: u32)
    requires
        handed_out(p, uid),
        no_twice(p.free),
        forall|i: int|
            0 <= i < p.free.len() ==> UID_BASE <= #[trigger] p.free[i] < UID_BASE + p.next,
    ensures
        no_twice(p.free.push(uid)),
        forall|i: int|
            0 <= i < p.free.push(uid).len() ==> UID_BASE <= #[trigger] p.free.push(uid)[i] < UID_BASE
                + p.next,
{
    let f = p.free.push(uid);
    assert forall|i: int, j: int| 0 <= i < j < f.len() implies #[trigger] f[i] != #[trigger] f[j] by {
        if j < p.free.len() {
            assert(p.free[i] != p.free[j]);
        } else {
            assert(f[i] == p.free[i]);
            assert(p.free.contains(p.free[i]));
        }
    }
    assert forall|i: int| 0 <= i < f.len() implies UID_BASE <= #[trigger] f[i] < UID_BASE + p.next by {
        if i < p.free.len() {
            assert(f[i] == p.free[i]);
        }
    }
}

proof fn lemma_aborted(r: RegistryView, uid: u32)
    requires
        r.wf(),
        r.creating.contains(uid),
    ensures
        aborted(r, uid).wf(),
{
    let t = aborted(r, uid);
    lemma_without(r.creating, uid);
    let k = choose|k: int| 0 <= k < r.creating.len() && r.creating[k] == uid;
    assert(handed_out(r.uids, r.creating[k]));
    lemma_free_list(r.uids, uid);
    assert forall|x: u32| t.lives(x) == r.lives(x) by {
        assert(t.entries == r.entries);
    }
    assert forall|i: int| 0 <= i < t.entries.len() implies handed_out(
        t.uids,
        (#[trigger] t.entries[i]).uid,
    ) by {
        assert(handed_out(r.uids, r.entries[i].uid));
        assert(r.lives(r.entries[i].uid));
        lemma_freed(r.uids, uid, r.entries[i].uid);
    }
    assert forall|i: int| 0 <= i < t.creating.len() implies handed_out(
        t.uids,
        #[trigger] t.creating[i],
    ) && !t.lives(t.creating[i]) && !t.deleting.contains(t.creating[i]) by {
        let u = t.creating[i];
        assert(t.creating.contains(u));
        let m = choose|m: int| 0 <= m < r.creating.len() && r.creating[m] == u;
        assert(handed_out(r.uids, r.creating[m]));
        lemma_freed(r.uids, uid, u);
    }
    assert forall|i: int| 0 <= i < t.deleting.len() implies handed_out(
        t.uids,
        #[trigger] t.deleting[i],
    ) && !t.lives(t.deleting[i]) by {
        assert(handed_out(r.uids, r.deleting[i]));
        if r.deleting[i] == uid {
            assert(r.deleting.contains(r.creating[k]));
        }
        lemma_freed(r.uids, uid, r.deleting[i]);
    }
}

proof fn lemma_removed(r: RegistryView, id: Seq<char>)
    requires
        r.wf(),
        entry_from(r.entries, id, 0) < r.entries.len(),
    ensures
        removed(r, id).wf(),
{
    let t = removed(r, id);
    lemma_entry(r.entries, id, 0);
    let p = entry_from(r.entries, id, 0);
    let uid = r.entries[p].uid;
    assert forall|i: int| 0 <= i < t.entries.len() implies #[trigger] t.entries[i] == (if i < p {
        r.entries[i]
    } else {
        r.entries[i + 1]
    }) by {}
    assert forall|i: int, j: int| 0 <= i < j < t.entries.len() implies (#[trigger] t.entries[i]).id
        != (#[trigger] t.entries[j]).id && t.entries[i].uid != t.entries[j].uid by {
        let a = if i < p {
            i
        } else {
            i + 1
        };
        let b = if j < p {
            j
        } else {
            j + 1
        };
        assert(r.entries[a].id != r.entries[b].id);
    }
    assert forall|x: u32| t.lives(x) implies r.lives(x) && x != uid by {
        let i = choose|i: int| 0 <= i < t.entries.len() && (#[trigger] t.entries[i]).uid == x;
        let a = if i < p {
            i
        } else {
            i + 1
        };
        assert(r.entries[a].uid == x);
        if a < p {
            assert(r.entries[a].id != r.entries[p].id);
        } else {
            assert(r.entries[p].id != r.entries[a].id);
        }
    }
    assert forall|i: int| 0 <= i < t.entries.len() implies handed_out(
        t.uids,
        (#[trigger] t.entries[i]).uid,
    ) by {
        let a = if i < p {
            i
        } else {
            i + 1
        };
        assert(handed_out(r.uids, r.entries[a].uid));
    }
    assert forall|i: int| 0 <= i < t.creating.len() implies handed_out(
        t.uids,
        #[trigger] t.creating[i],
    ) && !t.lives(t.creating[i]) && !t.deleting.contains(t.creating[i]) by {
        let u = r.creating[i];
        assert(handed_out(r.uids, r.creating[i]));
        assert(u != uid) by {
            assert(r.entries[p].uid == uid);
            assert(r.lives(uid));
        }
        if t.deleting.contains(u) {
            let m = choose|m: int| 0 <= m < t.deleting.len() && t.deleting[m] == u;
            assert(r.deleting[m] == u);
            assert(r.deleting.contains(u));
        }
    }
    assert forall|i: int| 0 <= i < t.deleting.len() implies handed_out(
        t.uids,
        #[trigger] t.deleting[i],
    ) && !t.lives(t.deleting[i]) by {
        if i < r.deleting.len() {
            assert(t.deleting[i] == r.deleting[i]);
            assert(handed_out(r.uids, r.deleting[i]));
        } else {
            assert(handed_out(r.uids, r.entries[p].uid));
        }
    }
    assert(no_twice(t.deleting)) by {
        assert forall|i: int, j: int| 0 <= i < j < t.deleting.len() implies #[trigger] t.deleting[i]
            != #[trigger] t.deleting[j] by {
            if j < r.deleting.len() {
                assert(r.deleting[i] != r.deleting[j]);
            } else {
                assert(t.deleting[i] == r.deleting[i]);
                assert(!r.lives(r.deleting[i]));
                assert(r.entries[p].uid == uid);
                assert(r.lives(uid));
            }
        }
    }
}

proof fn lemma_settled(r: RegistryView, uid: u32, clean: bool)
    requires
        r.wf(),
        r.deleting.contains(uid),
    ensures
        settled(r, uid, clean).wf(),
{
    let t = settled(r, uid, clean);
    lemma_without(r.deleting, uid);
    let k = choose|k: int| 0 <= k < r.deleting.len() && r.deleting[k] == uid;
    assert(handed_out(r.uids, r.deleting[k]));
    lemma_free_list(r.uids, uid);
    assert forall|x: u32| t.lives(x) == r.lives(x) by {
        assert(t.entries == r.entries);
    }
    assert forall|i: int| 0 <= i < t.entries.len() implies handed_out(
        t.uids,
        (#[trigger] t.entries[i]).uid,
    ) by {
        assert(handed_out(r.uids, r.entries[i].uid));
        assert(r.lives(r.entries[i].uid));
        lemma_freed(r.uids, uid, r.entries[i].uid);
    }
    assert forall|i: int| 0 <= i < t.creating.len() implies handed_out(
        t.uids,
        #[trigger] t.creating[i],
    ) && !t.lives(t.creating[i]) && !t.deleting.contains(t.creating[i]) by {
        assert(handed_out(r.uids, r.creating[i]));
        if r.creating[i] == uid {
            assert(r.deleting.contains(r.creating[i]));
        }
        lemma_freed(r.uids, uid, r.creating[i]);
    }
    assert forall|i: int| 0 <= i < t.deleting.len() implies handed_out(
        t.uids,
        #[trigger] t.deleting[i],
    ) && !t.lives(t.deleting[i]) by {
        let u = t.deleting[i];
        assert(t.deleting.contains(u));
        let m = choose|m: int| 0 <= m < r.deleting.len() && r.deleting[m] == u;
        assert(handed_out(r.uids, r.deleting[m]));
        lemma_freed(r.uids, uid, u);
    }
}

/// A registry after a request addressed a sandbox: its idle time starts again.
pub open spec fn touched(r: RegistryView, id: Seq<char>, now: i64) -> RegistryView {
    let p = entry_from(r.entries, id, 0);
    if p < r.entries.len() {
        RegistryView {
            entries: r.entries.update(p, EntryView { last_activity_ms: now, ..r.entries[p] }),
            ..r
        }
    } else {
        r
    }
}

proof fn lemma_touched(r: RegistryView, id: Seq<char>, now: i64)
    requires
        r.wf(),
    ensures
        touched(r, id, now).wf(),
{
    lemma_entry(r.entries, id, 0);
    let t = touched(r, id, now);
    assert forall|uid: u32| t.lives(uid) implies r.lives(uid) by {
        let i = choose|i: int| 0 <= i < t.entries.len() && (#[trigger] t.entries[i]).uid == uid;
        assert(r.entries[i].uid == uid);
    }
    assert forall|i: int, j: int| 0 <= i < j < t.entries.len() implies (#[trigger] t.entries[i]).id
        != (#[trigger] t.entries[j]).id && t.entries[i].uid != t.entries[j].uid by {
        assert(r.entries[i].id != r.entries[j].id);
    }
    assert forall|i: int| 0 <= i < t.entries.len() implies handed_out(
        t.uids,
        (#[trigger] t.entries[i]).uid,
    ) by {
        assert(handed_out(r.uids, r.entries[i].uid));
    }
}

// ---------------------------------------------------------------------------
// What holds of the registry
// ---------------------------------------------------------------------------

/// No two sandboxes share a uid or an id, and there are never more of them than the host
/// has slots.
pub proof fn law_sandboxes_are_apart(r: RegistryView, i: int, j: int)
    requires
        r.wf(),
        0 <= i < r.entries.len(),
        0 <= j < r.entries.len(),
        i != j,
    ensures
        r.entries[i].uid != r.entries[j].uid,
        r.entries[i].id != r.entries[j].id,
        r.entries.len() <= r.capacity,
{
    if i < j {
        assert(r.entries[i].id != r.entries[j].id);
    } else {
        assert(r.entries[j].id != r.entries[i].id);
    }
}

/// The uid that a new sandbox gets belongs to no other one, whether that lives, is being
/// made or is being deleted, and it is not quarantined.
pub proof fn law_reserved_uid_is_nobody_elses(r: RegistryView, procs: Seq<procfs::ProcView>)
    requires
        r.wf(),
    ensures
        reserved_for(r, procs).1 matches Some(uid) ==> {
            &&& !r.lives(uid)
            &&& !r.creating.contains(uid)
            &&& !r.deleting.contains(uid)
            &&& !r.uids.quarantined.contains(uid)
            &&& procfs::in_range(uid as int)
        },
{
    match reserved_for(r, procs).1 {
        Some(uid) => {
            lemma_newly_out(r.uids, procs);
            uids::law_quarantined_uid_is_never_handed_out(r.uids, procs);
            if r.lives(uid) {
                let k = choose|k: int| 0 <= k < r.entries.len() && (#[trigger] r.entries[k]).uid == uid;
                assert(handed_out(r.uids, r.entries[k].uid));
            }
            if r.creating.contains(uid) {
                let k = choose|k: int| 0 <= k < r.creating.len() && r.creating[k] == uid;
                assert(handed_out(r.uids, r.creating[k]));
            }
            if r.deleting.contains(uid) {
                let k = choose|k: int| 0 <= k < r.deleting.len() && r.deleting[k] == uid;
                assert(handed_out(r.uids, r.deleting[k]));
            }
        },
        None => {},
    }
}

/// A full host refuses without a trace.
pub proof fn law_full_host_is_unchanged(r: RegistryView, procs: Seq<procfs::ProcView>)
    requires
        r.reserved >= r.capacity,
    ensures
        reserved_for(r, procs) == (r, None::<u32>),
{
}

proof fn lemma_idle_ids(s: Seq<EntryView>, now: i64, id: Seq<char>)
    ensures
        idle_ids(s, now).contains(id) ==> exists|i: int|
            0 <= i < s.len() && (#[trigger] s[i]).id == id && is_idle(s[i], now),
    decreases s.len(),
{
    if s.len() > 0 && idle_ids(s, now).contains(id) {
        let front = s.drop_last();
        lemma_idle_ids(front, now, id);
        let a = idle_ids(front, now);
        let b = idle_ids(s, now);
        let k = choose|k: int| 0 <= k < b.len() && b[k] == id;
        if k < a.len() {
            assert(a[k] == id);
            let i = choose|i: int|
                0 <= i < front.len() && (#[trigger] front[i]).id == id && is_idle(front[i], now);
            assert(s[i].id == id && is_idle(s[i], now));
        } else {
            assert(s[s.len() - 1].id == id && is_idle(s[s.len() - 1], now));
        }
    }
}

/// A request for a sandbox starts its idle time again: until its timeout has passed it is
/// not idle, and one without a timeout never is.
pub proof fn law_touched_sandbox_is_not_idle(r: RegistryView, id: Seq<char>, t: i64, now: i64)
    requires
        r.wf(),
        entry_of(r.entries, id) is Some,
        entry_of(r.entries, id)->0.idle_timeout_ms > 0 ==> now <= t + entry_of(
            r.entries,
            id,
        )->0.idle_timeout_ms && i64::MIN <= now - t <= i64::MAX,
    ensures
        !idle_ids(touched(r, id, t).entries, now).contains(id),
{
    let p = entry_from(r.entries, id, 0);
    lemma_entry(r.entries, id, 0);
    let s = touched(r, id, t).entries;
    lemma_idle_ids(s, now, id);
    if idle_ids(s, now).contains(id) {
        let i = choose|i: int|
            0 <= i < s.len() && (#[trigger] s[i]).id == id && is_idle(s[i], now);
        if i < p {
            assert(r.entries[i].id != r.entries[p].id);
        } else if i > p {
            assert(r.entries[p].id != r.entries[i].id);
        }
    }
}

/// A sandbox that was entered is found under its id, and every other one as before.
pub proof fn law_entered_sandbox_is_found(r: RegistryView, e: EntryView, other: Seq<char>)
    ensures
        entry_of(entered(r, e).entries, e.id) == Some(e),
        other != e.id ==> entry_of(entered(r, e).entries, other) == entry_of(r.entries, other),
{
    let a = r.entries;
    let b = with_entry(a, e);
    let p = entry_from(a, e.id, 0);
    lemma_entry(a, e.id, 0);
    lemma_entry(b, e.id, 0);
    lemma_entry(a, other, 0);
    lemma_entry(b, other, 0);
    assert(b[p] == e);
    let q = entry_from(b, e.id, 0);
    if q < p {
        assert(b[q] == a[q]);
    }
    if other != e.id {
        let x = entry_from(a, other, 0);
        let y = entry_from(b, other, 0);
        if x < a.len() {
            assert(b[x] == a[x]);
            if y < x {
                assert(b[y] == a[y]);
            }
        } else if y < b.len() {
            assert(b[y] == a[y]);
        }
    }
}

/// A sandbox that was deleted is found no more, and every other one as before.
pub proof fn law_deleted_sandbox_is_gone(r: RegistryView, id: Seq<char>, other: Seq<char>)
    requires
        r.wf(),
        entry_of(r.entries, id) is Some,
    ensures
        entry_of(removed(r, id).entries, id) is None,
        other != id ==> entry_of(removed(r, id).entries, other) == entry_of(r.entries, other),
{
    let a = r.entries;
    let p = entry_from(a, id, 0);
    let b = a.remove(p);
    lemma_entry(a, id, 0);
    lemma_entry(b, id, 0);
    lemma_entry(a, other, 0);
    lemma_entry(b, other, 0);
    assert forall|i: int| 0 <= i < b.len() implies #[trigger] b[i] == (if i < p {
        a[i]
    } else {
        a[i + 1]
    }) by {}
    let q = entry_from(b, id, 0);
    if q < b.len() {
        if q < p {
            assert(a[q].id != id);
        } else {
            assert(a[p].id != a[q + 1].id);
        }
    }
    if other != id {
        let x = entry_from(a, other, 0);
        let y = entry_from(b, other, 0);
        if x < a.len() {
            let z = if x < p {
                x
            } else {
                x - 1
            };
            assert(b[z] == a[x]);
            if y < z {
                if y < p {
                    assert(b[y] == a[y]);
                } else {
                    assert(b[y] == a[y + 1]);
                }
            }
        } else if y < b.len() {
            if y < p {
                assert(b[y] == a[y]);
            } else {
                assert(b[y] == a[y + 1]);
            }
        }
    }
}

/// Whatever happens to the registry, a uid that is quarantined stays so.
pub proof fn law_quarantine_is_for_good(
    r: RegistryView,
    uid: u32,
    procs: Seq<procfs::ProcView>,
    e: EntryView,
    id: Seq<char>,
    other: u32,
    clean: bool,
    now: i64,
)
    requires
        r.uids.quarantined.contains(uid),
    ensures
        reserved_for(r, procs).0.uids.quarantined.contains(uid),
        entered(r, e).uids.quarantined.contains(uid),
        aborted(r, other).uids.quarantined.contains(uid),
        removed(r, id).uids.quarantined.contains(uid),
        settled(r, other, clean).uids.quarantined.contains(uid),
        touched(r, id, now).uids.quarantined.contains(uid),
{
    let q = r.uids.quarantined;
    let i = choose|i: int| 0 <= i < q.len() && q[i] == uid;
    uids::lemma_reuse(r.uids, procs);
    let rest = uids::reuse(r.uids, procs).0;
    uids::lemma_fresh(rest);
    assert(rest.quarantined.take(q.len() as int)[i] == uid);
    assert(rest.quarantined[i] == uid);
    assert(q.push(other)[i] == uid);
}

/// A sandbox that was deleted without being sure that nothing of it is left has no
/// successor under its uid: the uid is quarantined, and so it is not handed out.
pub proof fn law_doubtful_uid_is_not_reused(
    r: RegistryView,
    uid: u32,
    procs: Seq<procfs::ProcView>,
)
    ensures
        settled(r, uid, false).uids.quarantined.contains(uid),
        reserved_for(settled(r, uid, false), procs).1 != Some(uid),
{
    let t = settled(r, uid, false);
    uids::law_quarantined_uid_is_never_handed_out(t.uids, procs);
    assert(t.uids.quarantined[r.uids.quarantined.len() as int] == uid);
}

/// A sandbox that was given up leaves its slot and its uid to the next one.
pub proof fn law_aborted_slot_is_free_again(r: RegistryView, uid: u32)
    requires
        r.wf(),
        r.creating.contains(uid),
    ensures
        aborted(r, uid).room() > 0,
        aborted(r, uid).uids.free.last() == uid,
{
}

// ---------------------------------------------------------------------------
// Names that are drawn
// ---------------------------------------------------------------------------

/// The two digits of a byte.
pub open spec fn hex_pair(b: u8) -> Seq<char> {
    seq![number::digit_char((b / 16) as nat), number::digit_char((b % 16) as nat)]
}

/// Bytes written out in hexadecimal.
pub open spec fn hex_text(bytes: Seq<u8>) -> Seq<char>
    decreases bytes.len(),
{
    if bytes.len() == 0 {
        Seq::empty()
    } else {
        hex_text(bytes.drop_last()) + hex_pair(bytes.last())
    }
}

fn hex_digit(d: u8) -> (c: char)
    requires
        d < 16,
    ensures
        c == number::digit_char(d as nat),
{
    if d < 10 {
        (48 + d) as char
    } else {
        (87 + d) as char
    }
}

/// The name that bytes drawn at random make: an id or a token.
pub fn random_hex(bytes: &[u8]) -> (r: String)
    ensures
        r@ == hex_text(bytes@),
{
    let mut r: String = String::new();
    let mut i: usize = 0;
    assert(bytes@.take(0) =~= Seq::<u8>::empty());
    while i < bytes.len()
        invariant
            i <= bytes@.len(),
            r@ == hex_text(bytes@.take(i as int)),
        decreases bytes@.len() - i,
    {
        let b: u8 = bytes[i];
        let ghost before = r@;
        proof {
            assert(bytes@.take(i + 1).drop_last() =~= bytes@.take(i as int));
            assert(bytes@.take(i + 1).last() == b);
        }
        r.push(hex_digit(b / 16));
        r.push(hex_digit(b % 16));
        assert(r@ =~= before + hex_pair(b));
        i += 1;
    }
    assert(bytes@.take(bytes@.len() as int) =~= bytes@);
    r
}

/// Different bytes make different names, and a name has two characters for each byte.
pub proof fn law_names_differ_when_bytes_do(a: Seq<u8>, b: Seq<u8>)
    ensures
        hex_text(a).len() == 2 * a.len(),
        hex_text(a) == hex_text(b) ==> a == b,
    decreases a.len() + b.len(),
{
    lemma_hex_len(a);
    lemma_hex_len(b);
    if hex_text(a) == hex_text(b) {
        if a.len() == 0 {
            assert(a =~= b);
        } else {
            let n = 2 * a.len();
            let x = hex_text(a.drop_last());
            let y = hex_text(b.drop_last());
            law_names_differ_when_bytes_do(a.drop_last(), b.drop_last());
            assert(hex_text(a).take(n - 2) =~= x);
            assert(hex_text(b).take(n - 2) =~= y);
            assert(hex_text(a)[n - 2] == hex_pair(a.last())[0]);
            assert(hex_text(a)[n - 1] == hex_pair(a.last())[1]);
            assert(hex_text(b)[n - 2] == hex_pair(b.last())[0]);
            assert(hex_text(b)[n - 1] == hex_pair(b.last())[1]);
            lemma_hex_digits_differ((a.last() / 16) as nat, (b.last() / 16) as nat);
            lemma_hex_digits_differ((a.last() % 16) as nat, (b.last() % 16) as nat);
            assert(a.last() == b.last());
            assert(a =~= a.drop_last().push(a.last()));
            assert(b =~= b.drop_last().push(b.last()));
        }
    }
}

proof fn lemma_hex_len(a: Seq<u8>)
    ensures
        hex_text(a).len() == 2 * a.len(),
    decreases a.len(),
{
    if a.len() > 0 {
        lemma_hex_len(a.drop_last());
    }
}

proof fn lemma_hex_digits_differ(a: nat, b: nat)
    requires
        a < 16,
        b < 16,
        number::digit_char(a) == number::digit_char(b),
    ensures
        a == b,
{
}

// ---------------------------------------------------------------------------
// The home of a sandbox
// ---------------------------------------------------------------------------

/// The paths from a target up to a home, the home left out, when the target is under it.
pub open spec fn paths_up(home: Seq<Seq<char>>, target: Seq<Seq<char>>) -> Seq<Seq<char>>
    decreases target.len(),
{
    if target.len() <= home.len() || target.take(home.len() as int) != home {
        Seq::empty()
    } else {
        seq![fsutil::path_text(target)] + paths_up(home, target.drop_last())
    }
}

fn under(home: &Vec<String>, target: &Vec<String>) -> (r: bool)
    ensures
        r == (home@.len() <= target@.len() && text::strings(target@).take(home@.len() as int)
            == text::strings(home@)),
{
    if home.len() > target.len() {
        return false;
    }
    let mut i: usize = 0;
    while i < home.len()
        invariant
            i <= home@.len() <= target@.len(),
            forall|j: int| 0 <= j < i ==> home@[j]@ == target@[j]@,
        decreases home@.len() - i,
    {
        if !str_eq(home[i].as_str(), target[i].as_str()) {
            proof {
                assert(text::strings(target@).take(home@.len() as int)[i as int] == target@[i as int]@);
                assert(text::strings(home@)[i as int] == home@[i as int]@);
            }
            return false;
        }
        i += 1;
    }
    assert(text::strings(target@).take(home@.len() as int) =~= text::strings(home@));
    true
}

/// The paths that have to be given to a sandbox so that it can use a target in its home:
/// the target and every directory between it and the home.
pub fn chown_into_home(home: &str, target: &str) -> (r: Vec<String>)
    ensures
        text::strings(r@) == paths_up(fsutil::components(home@), fsutil::components(target@)),
{
    let h = path_components(home);
    let t = path_components(target);
    let ghost hs = text::strings(h@);
    let ghost ts = text::strings(t@);
    let mut r: Vec<String> = Vec::new();
    assert(text::strings(r@) =~= Seq::<Seq<char>>::empty());
    if !under(&h, &t) {
        return r;
    }
    let mut n: usize = t.len();
    assert(ts.take(n as int) =~= ts);
    assert(text::strings(r@) + paths_up(hs, ts) =~= paths_up(hs, ts));
    while n > h.len()
        invariant
            h@.len() <= n <= t@.len(),
            hs == text::strings(h@),
            ts == text::strings(t@),
            ts.take(h@.len() as int) == hs,
            text::strings(r@) + paths_up(hs, ts.take(n as int)) == paths_up(hs, ts),
        decreases n,
    {
        let ghost before = text::strings(r@);
        let ghost cur = ts.take(n as int);
        assert(cur.take(h@.len() as int) =~= hs);
        assert(cur.drop_last() =~= ts.take(n - 1));
        let path = prefix_text(&t, n);
        r.push(path);
        assert(text::strings(r@) =~= before + seq![fsutil::path_text(cur)]);
        assert(text::strings(r@) + paths_up(hs, ts.take(n - 1)) =~= before + paths_up(hs, cur));
        n -= 1;
    }
    assert(paths_up(hs, ts.take(n as int)) =~= Seq::<Seq<char>>::empty());
    assert(text::strings(r@) =~= paths_up(hs, ts));
    r
}

/// Nothing outside a home is given to its sandbox, and not the home itself: each path is
/// made of the components of the home and at least one more.
pub proof fn law_only_paths_below_the_home_are_given(
    home: Seq<Seq<char>>,
    target: Seq<Seq<char>>,
    k: int,
)
    requires
        0 <= k < paths_up(home, target).len(),
    ensures
        home.len() < target.len() - k <= target.len(),
        target.take(home.len() as int) == home,
        paths_up(home, target)[k] == fsutil::path_text(target.take(target.len() - k)),
    decreases k,
{
    if k == 0 {
        assert(target.take(target.len() as int) =~= target);
    } else {
        let front = target.drop_last();
        assert(paths_up(home, target)[k] == paths_up(home, front)[k - 1]);
        law_only_paths_below_the_home_are_given(home, front, k - 1);
        assert(front.take(front.len() - (k - 1)) =~= target.take(target.len() - k));
    }
}

/// What has to be made for a sandbox, in this order: the home, private to its owner; the
/// other two directories; and the paths that are given to the sandbox.
pub struct HomePlan {
    pub home: String,
    pub tmp: String,
    pub proxy_dir: String,
    pub owned: Vec<String>,
}

/// What has to be made for the sandbox with the given id.
pub fn plan_home(id: &str) -> (r: HomePlan)
    ensures
        r.home@ == home_of(id@),
        r.tmp@ == home_of(id@) + "/.tmp"@,
        r.proxy_dir@ == home_of(id@) + "/"@ + PROXY_SUBDIR@,
        text::strings(r.owned@) == seq![r.home@, r.tmp@] + paths_up(
            fsutil::components(r.home@),
            fsutil::components(r.proxy_dir@),
        ),
{
    let home = home_path(id);
    let mut tmp: String = home.clone();
    tmp.append("/.tmp");
    let mut proxy_dir: String = home.clone();
    proxy_dir.append("/");
    proxy_dir.append(PROXY_SUBDIR);
    let mut owned: Vec<String> = Vec::new();
    owned.push(home.clone());
    owned.push(tmp.clone());
    let mut chain = chown_into_home(home.as_str(), proxy_dir.as_str());
    let ghost below = text::strings(chain@);
    owned.append(&mut chain);
    assert(text::strings(owned@) =~= seq![home@, tmp@] + below);
    HomePlan { home, tmp, proxy_dir, owned }
}

/// How a sandbox is confined, given what came of building its ruleset. Without one it is
/// not made, unless the operator accepted that.
pub open spec fn confinement_of(ruleset: Result<i32, String>, allow_unconfined: bool) -> Option<
    Confinement,
> {
    match ruleset {
        Ok(fd) => Some(Confinement::Landlock(fd)),
        Err(_) => if allow_unconfined {
            Some(Confinement::UidOnly)
        } else {
            None
        },
    }
}

/// How a sandbox is confined, given what came of building its ruleset.
pub fn confine(ruleset: Result<i32, String>, allow_unconfined: bool) -> (r: Result<
    Confinement,
    String,
>)
    ensures
        match r {
            Ok(c) => confinement_of(ruleset, allow_unconfined) == Some(c),
            Err(m) => confinement_of(ruleset, allow_unconfined) is None && m@
                == "cannot confine sandbox: "@ + ruleset->Err_0@,
        },
{
    match ruleset {
        Ok(fd) => Ok(Confinement::Landlock(fd)),
        Err(e) => {
            if allow_unconfined {
                Ok(Confinement::UidOnly)
            } else {
                let mut m: String = "cannot confine sandbox: ".to_owned();
                m.append(e.as_str());
                Err(m)
            }
        },
    }
}

/// A sandbox that is confined by its uid only is made where the operator accepted that
/// and no ruleset could be built, and nowhere else.
pub proof fn law_unconfined_only_when_allowed(ruleset: Result<i32, String>, allow_unconfined: bool)
    ensures
        confinement_of(ruleset, allow_unconfined) == Some(Confinement::UidOnly) <==> allow_unconfined
            && ruleset is Err,
{
}

// ---------------------------------------------------------------------------
// What a sandbox is, and what becomes of it
// ---------------------------------------------------------------------------

/// A registry denotes what it holds, and an entry denotes its own fields.
pub proof fn law_registry_denotes_its_entries(r: SandboxRegistry, e: SandboxEntry, i: int)
    ensures
        e@.id == e.id@,
        e@.uid == e.uid,
        e@.home == e.home@,
        e@.env == e.env@,
        e@.token == e.token@,
        e@.max_procs == e.max_procs,
        e@.max_mem_mb == e.max_mem_mb,
        e@.confinement == e.confinement,
        e@.created_at_ms == e.created_at_ms,
        e@.last_activity_ms == e.last_activity_ms,
        e@.idle_timeout_ms == e.idle_timeout_ms,
        r@.entries.len() == r.entries@.len(),
        0 <= i < r.entries@.len() ==> r@.entries[i] == r.entries@[i]@,
        r@.capacity == r.capacity,
        r@.reserved == r.reserved,
        r@.allow_unconfined == r.allow_unconfined,
        r@.creating == r.creating@,
        r@.deleting == r.deleting@,
{
}

/// After a sandbox was entered, looking it up by its id gives what was asked for it: its uid,
/// its token, its environment, its limits or the usual ones, its idle time and its
/// confinement, a home that is named after it, and the time it was made, at which it was also
/// last used.
pub proof fn law_new_sandbox_keeps_what_was_asked(
    r: RegistryView,
    uid: u32,
    id: Seq<char>,
    token: Seq<char>,
    env: Seq<(Seq<char>, Seq<char>)>,
    max_procs: Option<u64>,
    max_mem_mb: Option<u64>,
    idle_timeout_ms: i64,
    confinement: Confinement,
    now: i64,
)
    ensures
        ({
            let made = new_entry(
                uid,
                id,
                token,
                env,
                max_procs,
                max_mem_mb,
                idle_timeout_ms,
                confinement,
                now,
            );
            let found = entry_of(entered(r, made).entries, id);
            &&& found is Some
            &&& found->0.id == id
            &&& found->0.uid == uid
            &&& found->0.token == token
            &&& found->0.env == env
            &&& found->0.home == "/sbx/homes"@ + "/"@ + id
            &&& found->0.confinement == confinement
            &&& found->0.idle_timeout_ms == idle_timeout_ms
            &&& found->0.created_at_ms == now
            &&& found->0.last_activity_ms == now
            &&& (max_procs matches Some(n) ==> found->0.max_procs == n)
            &&& (max_procs is None ==> found->0.max_procs == 256)
            &&& (max_mem_mb matches Some(n) ==> found->0.max_mem_mb == n)
            &&& (max_mem_mb is None ==> found->0.max_mem_mb == 2048)
        }),
{
    let made = new_entry(
        uid,
        id,
        token,
        env,
        max_procs,
        max_mem_mb,
        idle_timeout_ms,
        confinement,
        now,
    );
    law_entered_sandbox_is_found(r, made, id);
}

/// A lookup by id finds a sandbox with that id, and fails where no sandbox has it.
pub proof fn law_lookup_is_by_id(s: Seq<EntryView>, id: Seq<char>, i: int)
    ensures
        entry_of(s, id) matches Some(e) ==> e.id == id && s.contains(e),
        0 <= i < s.len() && s[i].id == id ==> entry_of(s, id) is Some,
        0 <= i < s.len() && s[i].id == id && (forall|j: int|
            0 <= j < s.len() && j != i ==> (#[trigger] s[j]).id != id) ==> entry_of(s, id) == Some(
            s[i],
        ),
{
    lemma_entry(s, id, 0);
    let p = entry_from(s, id, 0);
    if p < s.len() {
        assert(s.contains(s[p]));
    }
}

/// A sandbox is listed with its id, its uid, its home, the time it was made and the name of
/// its confinement.
pub proof fn law_listing_describes_the_sandbox(e: EntryView)
    ensures
        json::member(listed(e), "id"@) == Some(json::JsonView::Str(e.id)),
        json::member(listed(e), "uid"@) == Some(json::JsonView::Int(e.uid as int)),
        json::member(listed(e), "home"@) == Some(json::JsonView::Str(e.home)),
        json::member(listed(e), "created_at_ms"@) == Some(
            json::JsonView::Int(e.created_at_ms as int),
        ),
        e.confinement is Landlock ==> json::member(listed(e), "confinement"@) == Some(
            json::JsonView::Str("landlock"@),
        ),
        e.confinement is UidOnly ==> json::member(listed(e), "confinement"@) == Some(
            json::JsonView::Str("uid-only"@),
        ),
{
    reveal_strlit("id");
    reveal_strlit("uid");
    reveal_strlit("home");
    reveal_strlit("created_at_ms");
    reveal_strlit("confinement");
    assert("id"@.len() == 2);
    assert("uid"@.len() == 3);
    assert("home"@.len() == 4);
    assert("created_at_ms"@.len() == 13);
    assert("confinement"@.len() == 11);
    json::lemma_object_5(
        ("id"@, json::JsonView::Str(e.id)),
        ("uid"@, json::JsonView::Int(e.uid as int)),
        ("home"@, json::JsonView::Str(e.home)),
        ("created_at_ms"@, json::JsonView::Int(e.created_at_ms as int)),
        ("confinement"@, json::JsonView::Str(e.confinement.name())),
    );
}

/// Making a sandbox takes one slot and one uid and leaves everything else; it fails only
/// where no slot or no uid is left.
pub proof fn law_reserving_takes_one_slot(r: RegistryView, procs: Seq<procfs::ProcView>)
    ensures
        reserved_for(r, procs).0.entries == r.entries,
        reserved_for(r, procs).0.capacity == r.capacity,
        reserved_for(r, procs).0.allow_unconfined == r.allow_unconfined,
        reserved_for(r, procs).0.deleting == r.deleting,
        r.reserved < r.capacity ==> reserved_for(r, procs).0.uids == uids::taken(r.uids, procs).0,
        r.reserved >= r.capacity ==> reserved_for(r, procs).0.uids == r.uids,
        reserved_for(r, procs).1 matches Some(uid) ==> {
            &&& r.reserved < r.capacity
            &&& reserved_for(r, procs).0.reserved == r.reserved + 1
            &&& reserved_for(r, procs).0.creating == r.creating + seq![uid]
            &&& uids::taken(r.uids, procs).1 == Some(uid)
        },
        reserved_for(r, procs).1 is None ==> {
            &&& r.reserved >= r.capacity || uids::taken(r.uids, procs).1 is None
            &&& reserved_for(r, procs).0.reserved == r.reserved
            &&& reserved_for(r, procs).0.creating == r.creating
        },
{
    match reserved_for(r, procs).1 {
        Some(uid) => {
            assert(r.creating.push(uid) =~= r.creating + seq![uid]);
        },
        None => {},
    }
}

/// Entering a sandbox ends its making: its uid is no longer one of a sandbox that is being
/// made, every other one still is, and the slots and the uids stay as they are.
pub proof fn law_entering_ends_the_making(r: RegistryView, e: EntryView, uid: u32)
    requires
        r.wf(),
        r.creating.contains(e.uid),
    ensures
        entered(r, e).creating.contains(uid) <==> r.creating.contains(uid) && uid != e.uid,
        entered(r, e).lives(e.uid),
        entered(r, e).reserved == r.reserved,
        entered(r, e).capacity == r.capacity,
        entered(r, e).allow_unconfined == r.allow_unconfined,
        entered(r, e).uids == r.uids,
        entered(r, e).deleting == r.deleting,
        entry_of(r.entries, e.id) is None ==> entered(r, e).entries == r.entries + seq![e],
{
    lemma_without(r.creating, e.uid);
    lemma_entry(r.entries, e.id, 0);
    let p = entry_from(r.entries, e.id, 0);
    assert(entered(r, e).entries[p] == e);
    assert(r.entries.push(e) =~= r.entries + seq![e]);
}

/// A sandbox that is given up returns its slot and its uid, and the live ones stay.
pub proof fn law_giving_up_returns_slot_and_uid(r: RegistryView, uid: u32, other: u32)
    requires
        r.wf(),
        r.creating.contains(uid),
    ensures
        aborted(r, uid).reserved == r.reserved - 1,
        aborted(r, uid).entries == r.entries,
        aborted(r, uid).capacity == r.capacity,
        aborted(r, uid).allow_unconfined == r.allow_unconfined,
        aborted(r, uid).deleting == r.deleting,
        aborted(r, uid).uids.free == r.uids.free + seq![uid],
        aborted(r, uid).uids.quarantined == r.uids.quarantined,
        aborted(r, uid).uids.next == r.uids.next,
        aborted(r, uid).creating.contains(other) <==> r.creating.contains(other) && other != uid,
{
    lemma_without(r.creating, uid);
    assert(r.uids.free.push(uid) =~= r.uids.free + seq![uid]);
}

/// Taking a sandbox out frees its slot at once and keeps its uid among those of sandboxes
/// that are being deleted.
pub proof fn law_taking_out_frees_the_slot(r: RegistryView, id: Seq<char>)
    requires
        r.wf(),
        entry_of(r.entries, id) is Some,
    ensures
        removed(r, id).reserved == r.reserved - 1,
        removed(r, id).entries.len() == r.entries.len() - 1,
        removed(r, id).deleting == r.deleting + seq![entry_of(r.entries, id)->0.uid],
        !removed(r, id).lives(entry_of(r.entries, id)->0.uid),
        removed(r, id).uids == r.uids,
        removed(r, id).creating == r.creating,
        removed(r, id).capacity == r.capacity,
        removed(r, id).allow_unconfined == r.allow_unconfined,
{
    lemma_entry(r.entries, id, 0);
    lemma_removed(r, id);
    let t = removed(r, id);
    let uid = entry_of(r.entries, id)->0.uid;
    assert(r.deleting.push(uid) =~= r.deleting + seq![uid]);
    assert(t.deleting[r.deleting.len() as int] == uid);
}

/// The end of a deletion gives the uid back where nothing of the sandbox is left, and puts it
/// away otherwise; it is no longer one of a sandbox that is being deleted, and nothing else
/// changes.
pub proof fn law_end_of_deletion_settles_the_uid(r: RegistryView, uid: u32, other: u32)
    ensures
        settled(r, uid, true).uids.free == r.uids.free + seq![uid],
        settled(r, uid, true).uids.quarantined == r.uids.quarantined,
        settled(r, uid, false).uids.free == r.uids.free,
        settled(r, uid, false).uids.quarantined == r.uids.quarantined + seq![uid],
        forall|clean: bool|
            {
                let t = #[trigger] settled(r, uid, clean);
                &&& t.uids.next == r.uids.next
                &&& (t.deleting.contains(other) <==> r.deleting.contains(other) && other != uid)
                &&& t.entries == r.entries
                &&& t.creating == r.creating
                &&& t.reserved == r.reserved
                &&& t.capacity == r.capacity
                &&& t.allow_unconfined == r.allow_unconfined
            },
{
    lemma_without(r.deleting, uid);
    assert(r.uids.free.push(uid) =~= r.uids.free + seq![uid]);
    assert(r.uids.quarantined.push(uid) =~= r.uids.quarantined + seq![uid]);
}

/// A request for a sandbox notes its time there, and changes nothing else of it nor of any
/// other sandbox.
pub proof fn law_touching_notes_the_time(r: RegistryView, id: Seq<char>, now: i64, i: int)
    requires
        r.wf(),
        0 <= i < r.entries.len(),
    ensures
        touched(r, id, now).entries.len() == r.entries.len(),
        r.entries[i].id != id ==> touched(r, id, now).entries[i] == r.entries[i],
        r.entries[i].id == id ==> touched(r, id, now).entries[i].last_activity_ms == now
            && touched(r, id, now).entries[i] == (EntryView { last_activity_ms: now, ..r.entries[i] }),
        touched(r, id, now).uids == r.uids,
        touched(r, id, now).reserved == r.reserved,
        touched(r, id, now).capacity == r.capacity,
        touched(r, id, now).creating == r.creating,
        touched(r, id, now).deleting == r.deleting,
{
    lemma_entry(r.entries, id, 0);
    let p = entry_from(r.entries, id, 0);
    if r.entries[i].id == id && i != p {
        assert(r.entries[p].id != r.entries[i].id);
    }
}

/// The idle sandboxes are those whose idle time is limited and over: one more sandbox adds
/// its id when more time than it may be idle has passed since its last request, and adds
/// nothing otherwise.
pub proof fn law_idle_sandboxes_are_those_over_their_time(s: Seq<EntryView>, e: EntryView, now: i64)
    requires
        i64::MIN <= now - e.last_activity_ms <= i64::MAX,
    ensures
        idle_ids(Seq::empty(), now).len() == 0,
        is_idle(e, now) <==> e.idle_timeout_ms > 0 && now - e.last_activity_ms > e.idle_timeout_ms,
        e.idle_timeout_ms > 0 && now - e.last_activity_ms > e.idle_timeout_ms ==> idle_ids(
            s.push(e),
            now,
        ) == idle_ids(s, now) + seq![e.id],
        e.idle_timeout_ms <= 0 || now - e.last_activity_ms <= e.idle_timeout_ms ==> idle_ids(
            s.push(e),
            now,
        ) == idle_ids(s, now),
{
    assert(s.push(e).drop_last() =~= s);
    assert(idle_ids(s, now).push(e.id) =~= idle_ids(s, now) + seq![e.id]);
}

/// The room of a host is its free slots, but no more than one request may ask for.
pub proof fn law_room_is_the_free_slots(r: RegistryView)
    requires
        r.reserved <= r.capacity,
    ensures
        r.capacity - r.reserved <= 4096 ==> r.room() == r.capacity - r.reserved,
        r.capacity - r.reserved > 4096 ==> r.room() == 4096,
        ids_of(r.entries).len() == r.entries.len(),
        forall|i: int| 0 <= i < r.entries.len() ==> #[trigger] ids_of(r.entries)[i] == r.entries[i].id,
{
}

/// What a sandbox gets when nothing is said of it, and the most that may be asked for.
pub proof fn law_limits_of_sandboxes()
    ensures
        DEFAULT_MAX_PROCS == 256,
        DEFAULT_MAX_MEM_MB == 2 * 1024,
        MAX_PROCS_CEILING == 4096,
        MAX_MEM_MB_CEILING == 1024 * 1024,
        DEFAULT_MAX_FILES == 4096,
        DEFAULT_MAX_FILE_SIZE_MB == 8 * 1024,
        DEFAULT_MAX_CPU_SECS == 24 * 60 * 60,
        MAX_ENV_BYTES == 64 * 1024,
        ID_BYTES == 8,
        TOKEN_BYTES == 32,
        MAX_BATCH == 4096,
        HOMES_DIR@ == "/sbx/homes"@,
        PROXY_SUBDIR@ == ".sbx/proxy"@,
{
}

/// Each byte of a name stands in its place as two hexadecimal digits in lower case, the
/// higher one first.
pub proof fn law_names_spell_their_bytes(bytes: Seq<u8>, i: int)
    requires
        0 <= i < bytes.len(),
    ensures
        hex_text(bytes).len() == 2 * bytes.len(),
        number::number_of(hex_text(bytes).subrange(2 * i, 2 * i + 2), 16) == bytes[i],
        forall|k: int|
            2 * i <= k < 2 * i + 2 ==> '0' <= #[trigger] hex_text(bytes)[k] <= '9' || 'a' <= hex_text(
                bytes,
            )[k] <= 'f',
    decreases bytes.len(),
{
    lemma_hex_len(bytes);
    let front = bytes.drop_last();
    lemma_hex_len(front);
    let all = hex_text(bytes);
    if i < front.len() {
        law_names_spell_their_bytes(front, i);
        assert(all.subrange(2 * i, 2 * i + 2) =~= hex_text(front).subrange(2 * i, 2 * i + 2));
        assert forall|k: int| 2 * i <= k < 2 * i + 2 implies '0' <= #[trigger] all[k] <= '9' || 'a'
            <= all[k] <= 'f' by {
            assert(all[k] == hex_text(front)[k]);
        }
    } else {
        let b = bytes[i];
        let pair = all.subrange(2 * i, 2 * i + 2);
        assert(pair =~= hex_pair(b));
        assert(pair.drop_last().drop_last().len() == 0);
        assert(pair.drop_last() =~= seq![number::digit_char((b / 16) as nat)]);
        reveal_with_fuel(number::number_of, 3);
        assert(number::digit_worth(pair[0]) == b / 16);
        assert(number::digit_worth(pair[1]) == b % 16);
        assert(all[2 * i] == pair[0] && all[2 * i + 1] == pair[1]);
    }
}

/// Every directory between a target and the home above it is given, the target too: one path
/// for each component that the target has more.
pub proof fn law_every_path_below_the_home_is_given(home: Seq<Seq<char>>, target: Seq<Seq<char>>)
    ensures
        target.len() >= home.len() && target.take(home.len() as int) == home ==> paths_up(
            home,
            target,
        ).len() == target.len() - home.len(),
        !(target.len() >= home.len() && target.take(home.len() as int) == home) ==> paths_up(
            home,
            target,
        ).len() == 0,
    decreases target.len(),
{
    if target.len() > home.len() && target.take(home.len() as int) == home {
        law_every_path_below_the_home_is_given(home, target.drop_last());
        assert(target.drop_last().take(home.len() as int) =~= home);
    }
}

/// A ruleset that was built confines the sandbox, whatever the operator accepts, and without
/// one the sandbox is made only where that is accepted.
pub proof fn law_ruleset_confines(fd: i32, error: String, allow_unconfined: bool)
    ensures
        confinement_of(Ok(fd), allow_unconfined) == Some(Confinement::Landlock(fd)),
        confinement_of(Err(error), false) is None,
        confinement_of(Err(error), true) == Some(Confinement::UidOnly),
        Confinement::Landlock(fd).name() == "landlock"@,
        Confinement::UidOnly.name() == "uid-only"@,
{
}

/// What is said of a deletion that left something names the sandbox and what is left.
pub proof fn law_leftovers_are_named(id: Seq<char>, uid: u32, error: Seq<char>)
    ensures
        survivors_text(id, uid) == "sandbox "@ + id + " was removed but processes under uid "@
            + number::decimal(uid as nat) + " survived the kill sweep"@,
        home_left_text(id, error) == "sandbox "@ + id
            + " was removed but its home could not be deleted: "@ + error,
{
}

/// However far the two times are apart, the time since the last request is their difference in
/// 64 bits.
pub proof fn law_idle_time_is_a_difference(e: EntryView, now: i64)
    ensures
        is_idle(e, now) <==> 0 < e.idle_timeout_ms < now.wrapping_sub(e.last_activity_ms),
{
}

/// A list of sandboxes tells nothing else of a sandbox: not its token, nor its environment.
pub proof fn law_listing_tells_nothing_else(e: EntryView, key: Seq<char>)
    requires
        key != "id"@,
        key != "uid"@,
        key != "home"@,
        key != "created_at_ms"@,
        key != "confinement"@,
    ensures
        json::member(listed(e), key) is None,
{
    json::lemma_object_5_only(
        ("id"@, json::JsonView::Str(e.id)),
        ("uid"@, json::JsonView::Int(e.uid as int)),
        ("home"@, json::JsonView::Str(e.home)),
        ("created_at_ms"@, json::JsonView::Int(e.created_at_ms as int)),
        ("confinement"@, json::JsonView::Str(e.confinement.name())),
        key,
    );
}

} // verus!
