//! What the processes of a sandbox get and what they are held to: their environment,
//! their limits, and the sweep that ends them.

use vstd::prelude::*;

use crate::sandboxes::{
    Confinement, SandboxEntry, DEFAULT_MAX_CPU_SECS, DEFAULT_MAX_FILES, DEFAULT_MAX_FILE_SIZE_MB,
    MAX_MEM_MB_CEILING, PROXY_SUBDIR,
};
use crate::sandboxes;
use crate::strmap;

verus! {

/// The environment of a process of a sandbox. Nothing of the server's own is in it.
pub open spec fn env_of(e: sandboxes::EntryView) -> Seq<(Seq<char>, Seq<char>)> {
    seq![
        (
            "PATH"@,
            e.home
                + "/.local/bin:/usr/local/sbin:/usr/local/bin:/usr/sbin:/usr/bin:/sbin:/bin"@,
        ),
        ("HOME"@, e.home),
        ("TMPDIR"@, e.home + "/.tmp"@),
        ("USER"@, "sbx-"@ + e.id),
        ("LOGNAME"@, "sbx-"@ + e.id),
        ("SBX_SANDBOX_ID"@, e.id),
        ("SBX_PROXY_DIR"@, e.home + "/"@ + PROXY_SUBDIR@),
    ] + e.env
}

fn joined_text(a: &str, b: &str) -> (r: String)
    ensures
        r@ == a@ + b@,
{
    let mut r: String = a.to_owned();
    r.append(b);
    r
}

/// The environment of a process of a sandbox. The server's own may hold secrets of the
/// job, so none of it is passed on. The user's own programs come first in `PATH`.
pub fn base_env(entry: &SandboxEntry) -> (r: Vec<(String, String)>)
    ensures
        strmap::pairs(r@) == env_of(entry@),
        r@.len() == 7 + entry.env.entries@.len(),
        forall|i: int|
            0 <= i < entry.env.entries@.len() ==> (#[trigger] entry.env.entries@[i]).0@ == r@[7
                + i].0@ && entry.env.entries@[i].1@ == r@[7 + i].1@,
{
    let home = entry.home.as_str();
    let user = joined_text("sbx-", entry.id.as_str());
    let proxy = joined_text(joined_text(home, "/").as_str(), PROXY_SUBDIR);
    let mut env: Vec<(String, String)> = Vec::new();
    env.push(
        (
            "PATH".to_owned(),
            joined_text(
                home,
                "/.local/bin:/usr/local/sbin:/usr/local/bin:/usr/sbin:/usr/bin:/sbin:/bin",
            ),
        ),
    );
    env.push(("HOME".to_owned(), entry.home.clone()));
    env.push(("TMPDIR".to_owned(), joined_text(home, "/.tmp")));
    env.push(("USER".to_owned(), user.clone()));
    env.push(("LOGNAME".to_owned(), user));
    env.push(("SBX_SANDBOX_ID".to_owned(), entry.id.clone()));
    env.push(("SBX_PROXY_DIR".to_owned(), proxy));
    let mut own = entry.env.copy();
    let ghost first = strmap::pairs(env@);
    env.append(&mut own.entries);
    assert(strmap::pairs(env@) =~= first + entry.env@);
    assert(strmap::pairs(env@) =~= env_of(entry@));
    assert forall|i: int| 0 <= i < entry.env.entries@.len() implies (
    #[trigger] entry.env.entries@[i]).0@ == env@[7 + i].0@ && entry.env.entries@[i].1@ == env@[7
        + i].1@ by {
        assert(strmap::pairs(env@)[7 + i] == entry.env@[i]);
    }
    env
}

/// What is limited.
#[derive(Clone, Copy, Debug, PartialEq, Eq, Structural)]
pub enum Resource {
    Processes,
    Memory,
    Core,
    Files,
    FileSize,
    Cpu,
}

/// One step between the fork and the start of a command.
#[derive(Clone, Copy, Debug, PartialEq, Eq, Structural)]
pub enum IsolationStep {
    /// No program may gain rights that its caller has not. The ruleset needs this.
    NoNewPrivileges,
    /// The ruleset with this descriptor is enforced.
    Restrict(i32),
    /// A limit, the hard one too. One that is `required` stops the command when it cannot
    /// be set; the others may already be lower than asked for.
    Limit { resource: Resource, value: u64, required: bool },
}

/// A size in bytes.
pub open spec fn mib(n: u64) -> u64 {
    if n * 1048576 > u64::MAX {
        u64::MAX
    } else {
        (n * 1048576) as u64
    }
}

fn to_bytes(n: u64) -> (r: u64)
    ensures
        r == mib(n),
{
    if n > u64::MAX / 1048576 {
        u64::MAX
    } else {
        n * 1048576
    }
}

/// The steps that put the limits of a sandbox in force.
pub open spec fn limits_of(e: sandboxes::EntryView) -> Seq<IsolationStep> {
    seq![
        IsolationStep::Limit { resource: Resource::Processes, value: e.max_procs, required: true },
        IsolationStep::Limit { resource: Resource::Memory, value: mib(e.max_mem_mb), required: true },
        IsolationStep::Limit { resource: Resource::Core, value: 0, required: false },
        IsolationStep::Limit {
            resource: Resource::Files,
            value: DEFAULT_MAX_FILES,
            required: false,
        },
        IsolationStep::Limit {
            resource: Resource::FileSize,
            value: mib(DEFAULT_MAX_FILE_SIZE_MB),
            required: false,
        },
        IsolationStep::Limit {
            resource: Resource::Cpu,
            value: DEFAULT_MAX_CPU_SECS,
            required: false,
        },
    ]
}

/// The steps between the fork and the start of a command of a sandbox.
pub open spec fn isolation_of(e: sandboxes::EntryView) -> Seq<IsolationStep> {
    (match e.confinement {
        Confinement::Landlock(fd) => seq![IsolationStep::NoNewPrivileges, IsolationStep::Restrict(fd)],
        Confinement::UidOnly => seq![IsolationStep::NoNewPrivileges],
    }) + limits_of(e)
}

/// The steps between the fork and the start of a command of a sandbox.
pub fn pre_exec_isolation(entry: &SandboxEntry) -> (r: Vec<IsolationStep>)
    ensures
        r@ == isolation_of(entry@),
{
    let mut r: Vec<IsolationStep> = Vec::new();
    r.push(IsolationStep::NoNewPrivileges);
    match entry.confinement {
        Confinement::Landlock(fd) => {
            r.push(IsolationStep::Restrict(fd));
        },
        Confinement::UidOnly => {},
    }
    let ghost first = r@;
    r.push(
        IsolationStep::Limit {
            resource: Resource::Processes,
            value: entry.max_procs,
            required: true,
        },
    );
    r.push(
        IsolationStep::Limit {
            resource: Resource::Memory,
            value: to_bytes(entry.max_mem_mb),
            required: true,
        },
    );
    r.push(IsolationStep::Limit { resource: Resource::Core, value: 0, required: false });
    r.push(
        IsolationStep::Limit { resource: Resource::Files, value: DEFAULT_MAX_FILES, required: false },
    );
    r.push(
        IsolationStep::Limit {
            resource: Resource::FileSize,
            value: to_bytes(DEFAULT_MAX_FILE_SIZE_MB),
            required: false,
        },
    );
    r.push(
        IsolationStep::Limit { resource: Resource::Cpu, value: DEFAULT_MAX_CPU_SECS, required: false },
    );
    assert(r@ =~= first + limits_of(entry@));
    assert(r@ =~= isolation_of(entry@));
    r
}

/// A memory limit that may be asked for is put in force to the byte.
pub proof fn law_memory_limit_is_exact(mb: u64)
    requires
        mb <= MAX_MEM_MB_CEILING,
    ensures
        mib(mb) == mb * 1048576,
{
}

/// A command of a confined sandbox starts only behind its ruleset, and no command before
/// it gave up the way to more rights.
pub proof fn law_ruleset_comes_before_the_command(e: sandboxes::EntryView)
    ensures
        isolation_of(e)[0] == IsolationStep::NoNewPrivileges,
        e.confinement matches Confinement::Landlock(fd) ==> isolation_of(e)[1]
            == IsolationStep::Restrict(fd),
{
}

// ---------------------------------------------------------------------------
// Ending the processes of a sandbox
// ---------------------------------------------------------------------------

/// How often the processes are killed before the sweep gives up.
pub const MAX_SWEEPS: u32 = 100;

/// What the sweep does next.
#[derive(Clone, Copy, Debug, PartialEq, Eq, Structural)]
pub enum SweepStep {
    /// It is over; whether none is left.
    Done(bool),
    /// All that were found are killed, and after this many milliseconds it looks again.
    Kill { pause_ms: u64 },
}

/// What a sweep does after `sweeps` rounds when it finds `alive` processes.
pub open spec fn sweep_step(sweeps: u32, alive: nat) -> SweepStep {
    if alive == 0 {
        SweepStep::Done(true)
    } else if sweeps >= MAX_SWEEPS {
        SweepStep::Done(false)
    } else if sweeps < 10 {
        SweepStep::Kill { pause_ms: 5 }
    } else {
        SweepStep::Kill { pause_ms: 10 }
    }
}

/// Kills the processes under a uid until none is left. Children may be forking, so one
/// round is not enough; that it does not end is told apart from that it is done.
pub struct KillSweep {
    pub sweeps: u32,
}

impl KillSweep {
    /// A sweep that has not begun.
    pub fn new() -> (r: KillSweep)
        ensures
            r.sweeps == 0,
    {
        KillSweep { sweeps: 0 }
    }

    /// Takes the processes that were found and says what to do.
    pub fn step(&mut self, pids: &Vec<i32>) -> (r: SweepStep)
        ensures
            r == sweep_step(old(self).sweeps, pids@.len()),
            final(self).sweeps == (if r is Kill {
                old(self).sweeps + 1
            } else {
                old(self).sweeps as int
            }),
    {
        if pids.len() == 0 {
            SweepStep::Done(true)
        } else if self.sweeps >= MAX_SWEEPS {
            SweepStep::Done(false)
        } else {
            let pause_ms: u64 = if self.sweeps < 10 {
                5
            } else {
                10
            };
            self.sweeps = self.sweeps + 1;
            SweepStep::Kill { pause_ms }
        }
    }
}

/// A sweep says that none is left exactly when it found none, and it comes to an end.
pub proof fn law_sweep_is_honest_and_ends(sweeps: u32, alive: nat)
    ensures
        sweep_step(sweeps, alive) == SweepStep::Done(true) <==> alive == 0,
        sweeps >= MAX_SWEEPS ==> sweep_step(sweeps, alive) is Done,
{
}

// ---------------------------------------------------------------------------
// What a command finds
// ---------------------------------------------------------------------------

/// Whether an environment that is set entry by entry, the later entry in the place of an
/// earlier one with the same key, ends up with `value` under `key`.
pub open spec fn ends_up(
    env: Seq<(Seq<char>, Seq<char>)>,
    key: Seq<char>,
    value: Seq<char>,
) -> bool {
    exists|i: int|
        0 <= i < env.len() && #[trigger] env[i] == (key, value) && forall|j: int|
            i < j < env.len() ==> (#[trigger] env[j]).0 != key
}

proof fn lemma_ends_up(
    before: Seq<(Seq<char>, Seq<char>)>,
    later: Seq<(Seq<char>, Seq<char>)>,
    key: Seq<char>,
    value: Seq<char>,
)
    ensures
        strmap::distinct_keys(later) && strmap::lookup(later, key) == Some(value) ==> ends_up(
            before + later,
            key,
            value,
        ),
        strmap::lookup(later, key) is None && ends_up(before, key, value) ==> ends_up(
            before + later,
            key,
            value,
        ),
{
    strmap::lemma_position(later, key, 0);
    let all = before + later;
    if strmap::distinct_keys(later) && strmap::lookup(later, key) == Some(value) {
        let p = strmap::position_from(later, key, 0);
        let i = before.len() + p;
        assert(all[i] == (key, value));
        assert forall|j: int| i < j < all.len() implies (#[trigger] all[j]).0 != key by {
            assert(all[j] == later[j - before.len()]);
            assert(later[p].0 != later[j - before.len()].0);
        }
    }
    if strmap::lookup(later, key) is None && ends_up(before, key, value) {
        let i = choose|i: int|
            0 <= i < before.len() && #[trigger] before[i] == (key, value) && forall|j: int|
                i < j < before.len() ==> (#[trigger] before[j]).0 != key;
        assert(all[i] == (key, value));
        assert forall|j: int| i < j < all.len() implies (#[trigger] all[j]).0 != key by {
            if j < before.len() {
                assert(all[j] == before[j]);
            } else {
                assert(all[j] == later[j - before.len()]);
            }
        }
    }
}

/// Every key of the environment that a sandbox was made with has its value there for the
/// commands of that sandbox, unless the request for the command gives another one.
pub proof fn law_environment_reaches_the_commands(
    e: sandboxes::EntryView,
    given: Seq<(Seq<char>, Seq<char>)>,
    key: Seq<char>,
    value: Seq<char>,
)
    requires
        strmap::distinct_keys(e.env),
        strmap::distinct_keys(given),
    ensures
        strmap::lookup(e.env, key) == Some(value) ==> ends_up(env_of(e), key, value),
        strmap::lookup(given, key) == Some(value) ==> ends_up(env_of(e) + given, key, value),
        strmap::lookup(given, key) is None && strmap::lookup(e.env, key) == Some(value) ==> ends_up(
            env_of(e) + given,
            key,
            value,
        ),
{
    let fixed = env_of(e).take(7);
    assert(env_of(e) =~= fixed + e.env);
    lemma_ends_up(fixed, e.env, key, value);
    lemma_ends_up(env_of(e), given, key, value);
}

/// What a command finds where neither its sandbox nor its request says otherwise: the home,
/// the user's own programs before those of the system, a directory for temporary files, a
/// user named after the sandbox, its id and the directory for its sockets. It finds nothing
/// else.
pub proof fn law_command_finds_its_sandbox(
    e: sandboxes::EntryView,
    given: Seq<(Seq<char>, Seq<char>)>,
    key: Seq<char>,
)
    requires
        strmap::lookup(e.env, key) is None,
        strmap::lookup(given, key) is None,
    ensures
        key == "PATH"@ ==> ends_up(
            env_of(e) + given,
            key,
            e.home + "/.local/bin:/usr/local/sbin:/usr/local/bin:/usr/sbin:/usr/bin:/sbin:/bin"@,
        ),
        key == "HOME"@ ==> ends_up(env_of(e) + given, key, e.home),
        key == "TMPDIR"@ ==> ends_up(env_of(e) + given, key, e.home + "/.tmp"@),
        key == "USER"@ ==> ends_up(env_of(e) + given, key, "sbx-"@ + e.id),
        key == "LOGNAME"@ ==> ends_up(env_of(e) + given, key, "sbx-"@ + e.id),
        key == "SBX_SANDBOX_ID"@ ==> ends_up(env_of(e) + given, key, e.id),
        key == "SBX_PROXY_DIR"@ ==> ends_up(env_of(e) + given, key, e.home + "/"@ + ".sbx/proxy"@),
        (exists|i: int| 0 <= i < (env_of(e) + given).len() && (#[trigger] (env_of(e) + given)[i]).0 == key)
            ==> key == "PATH"@ || key == "HOME"@ || key == "TMPDIR"@ || key == "USER"@ || key
            == "LOGNAME"@ || key == "SBX_SANDBOX_ID"@ || key == "SBX_PROXY_DIR"@,
{
    reveal_strlit("PATH");
    reveal_strlit("HOME");
    reveal_strlit("TMPDIR");
    reveal_strlit("USER");
    reveal_strlit("LOGNAME");
    reveal_strlit("SBX_SANDBOX_ID");
    reveal_strlit("SBX_PROXY_DIR");
    assert("PATH"@.len() == 4);
    assert("HOME"@.len() == 4);
    assert("TMPDIR"@.len() == 6);
    assert("USER"@.len() == 4);
    assert("LOGNAME"@.len() == 7);
    assert("SBX_SANDBOX_ID"@.len() == 14);
    assert("SBX_PROXY_DIR"@.len() == 13);
    assert("PATH"@[0] != "HOME"@[0]);
    assert("PATH"@[0] != "USER"@[0]);
    assert("HOME"@[0] != "USER"@[0]);
    let fixed = env_of(e).take(7);
    let all = env_of(e) + given;
    assert(env_of(e) =~= fixed + e.env);
    strmap::lemma_position(e.env, key, 0);
    strmap::lemma_position(given, key, 0);
    let path = e.home + "/.local/bin:/usr/local/sbin:/usr/local/bin:/usr/sbin:/usr/bin:/sbin:/bin"@;
    assert(fixed[0] == ("PATH"@, path));
    assert(fixed[1] == ("HOME"@, e.home));
    assert(fixed[2] == ("TMPDIR"@, e.home + "/.tmp"@));
    assert(fixed[3] == ("USER"@, "sbx-"@ + e.id));
    assert(fixed[4] == ("LOGNAME"@, "sbx-"@ + e.id));
    assert(fixed[5] == ("SBX_SANDBOX_ID"@, e.id));
    assert(fixed[6] == ("SBX_PROXY_DIR"@, e.home + "/"@ + ".sbx/proxy"@));
    assert forall|value: Seq<char>| ends_up(fixed, key, value) implies #[trigger] ends_up(
        all,
        key,
        value,
    ) by {
        lemma_ends_up(fixed, e.env, key, value);
        lemma_ends_up(env_of(e), given, key, value);
    }
    if key == "PATH"@ {
        assert(ends_up(fixed, key, path));
        assert(ends_up(all, key, path));
    }
    if key == "HOME"@ {
        assert(ends_up(fixed, key, e.home));
        assert(ends_up(all, key, e.home));
    }
    if key == "TMPDIR"@ {
        assert(ends_up(fixed, key, e.home + "/.tmp"@));
        assert(ends_up(all, key, e.home + "/.tmp"@));
    }
    if key == "USER"@ {
        assert(ends_up(fixed, key, "sbx-"@ + e.id));
        assert(ends_up(all, key, "sbx-"@ + e.id));
    }
    if key == "LOGNAME"@ {
        assert(ends_up(fixed, key, "sbx-"@ + e.id));
        assert(ends_up(all, key, "sbx-"@ + e.id));
    }
    if key == "SBX_SANDBOX_ID"@ {
        assert(ends_up(fixed, key, e.id));
        assert(ends_up(all, key, e.id));
    }
    if key == "SBX_PROXY_DIR"@ {
        assert(ends_up(fixed, key, e.home + "/"@ + ".sbx/proxy"@));
        assert(ends_up(all, key, e.home + "/"@ + ".sbx/proxy"@));
    }
    if exists|i: int| 0 <= i < all.len() && (#[trigger] all[i]).0 == key {
        let i = choose|i: int| 0 <= i < all.len() && (#[trigger] all[i]).0 == key;
        if i < 7 {
            assert(all[i] == fixed[i]);
        } else if i < env_of(e).len() {
            assert(all[i] == e.env[i - 7]);
        } else {
            assert(all[i] == given[i - env_of(e).len()]);
        }
    }
}

/// Every command of a sandbox is held to the limits of the sandbox: as many processes and as
/// much memory as the sandbox may have, or it does not start; no core files; and the usual
/// number of open files, size of files and processor time. There is one limit of each kind
/// and no other step behind the ruleset.
pub proof fn law_command_is_held_to_its_limits(e: sandboxes::EntryView)
    ensures
        isolation_of(e).contains(
            IsolationStep::Limit { resource: Resource::Processes, value: e.max_procs, required: true },
        ),
        e.max_mem_mb <= 1048576 ==> isolation_of(e).contains(
            IsolationStep::Limit {
                resource: Resource::Memory,
                value: (e.max_mem_mb * 1048576) as u64,
                required: true,
            },
        ),
        isolation_of(e).contains(
            IsolationStep::Limit { resource: Resource::Core, value: 0, required: false },
        ),
        isolation_of(e).contains(
            IsolationStep::Limit { resource: Resource::Files, value: 4096, required: false },
        ),
        isolation_of(e).contains(
            IsolationStep::Limit { resource: Resource::FileSize, value: 8589934592, required: false },
        ),
        isolation_of(e).contains(
            IsolationStep::Limit { resource: Resource::Cpu, value: 86400, required: false },
        ),
        isolation_of(e).len() == (if e.confinement is Landlock {
            8int
        } else {
            7int
        }),
{
    let s = isolation_of(e);
    let n: int = if e.confinement is Landlock {
        2
    } else {
        1
    };
    assert(s[n] == IsolationStep::Limit {
        resource: Resource::Processes,
        value: e.max_procs,
        required: true,
    });
    assert(s[n + 1] == IsolationStep::Limit {
        resource: Resource::Memory,
        value: mib(e.max_mem_mb),
        required: true,
    });
    assert(s[n + 2] == IsolationStep::Limit { resource: Resource::Core, value: 0, required: false });
    assert(s[n + 3] == IsolationStep::Limit {
        resource: Resource::Files,
        value: 4096,
        required: false,
    });
    assert(s[n + 4] == IsolationStep::Limit {
        resource: Resource::FileSize,
        value: 8589934592,
        required: false,
    });
    assert(s[n + 5] == IsolationStep::Limit { resource: Resource::Cpu, value: 86400, required: false });
}

/// A sweep that finds processes kills them, a hundred times before it gives up, and looks
/// again soon: at first after five milliseconds, later after ten.
pub proof fn law_sweep_keeps_killing(sweeps: u32, alive: nat)
    requires
        alive > 0,
    ensures
        sweeps < 10 ==> sweep_step(sweeps, alive) == (SweepStep::Kill { pause_ms: 5 }),
        10 <= sweeps < 100 ==> sweep_step(sweeps, alive) == (SweepStep::Kill { pause_ms: 10 }),
        sweeps >= 100 ==> sweep_step(sweeps, alive) == SweepStep::Done(false),
{
}

/// A number of mebibytes is that many times 1048576 bytes, as far as 64 bits hold it, and the
/// largest number of 64 bits beyond that.
pub proof fn law_mebibytes(n: u64)
    ensures
        n <= 17592186044415 ==> mib(n) == n * 1048576,
        n > 17592186044415 ==> mib(n) == 18446744073709551615,
{
}

} // verus!
