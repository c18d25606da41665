//! What a sandbox may touch: the Landlock ruleset that confines it.
//!
//! A sandboxed process can read and run what is in the system directories, read what is
//! in `/proc` and `/sys`, use the standard device nodes and terminals, and do as it likes
//! in its own home. Everything else is denied: the directories that are shared between sandboxes,
//! the homes of the others, and binding a TCP port. Connecting to one stays allowed.

use vstd::prelude::*;

use crate::sandboxes;
use crate::sandboxes::HOMES_DIR;
use crate::text;

verus! {

pub const FS_EXECUTE: u64 = 0x1;

pub const FS_WRITE_FILE: u64 = 0x2;

pub const FS_READ_FILE: u64 = 0x4;

pub const FS_READ_DIR: u64 = 0x8;

/// Removing files and directories, and making entries of any kind.
pub const FS_MAKE_REMOVE: u64 = 0x1ff0;

pub const FS_REFER: u64 = 0x2000;

pub const FS_TRUNCATE: u64 = 0x4000;

pub const FS_IOCTL_DEV: u64 = 0x8000;

/// Every access that the first ABI knows, so that what is not granted is denied.
pub const FS_BASE: u64 = 0x1fff;

pub const NET_BIND_TCP: u64 = 0x1;

pub const SCOPED_ABSTRACT_UNIX_SOCKET: u64 = 0x1;

pub const SCOPED_SIGNAL: u64 = 0x2;

/// The ABI that has everything that the isolation of sandboxes promises.
pub const FULL_ABI: i32 = 6;

/// Whether rulesets can be used at all.
pub fn available(abi: i32) -> (r: bool)
    ensures
        r == (abi >= 1),
{
    abi >= 1
}

/// What a ruleset takes charge of.
#[derive(Clone, Copy, Debug, PartialEq, Eq, Structural)]
pub struct RulesetAttr {
    pub handled_access_fs: u64,
    pub handled_access_net: u64,
    pub scoped: u64,
}

/// The accesses to files that a ruleset of an ABI takes charge of.
pub open spec fn handled_fs(abi: i32) -> u64 {
    FS_BASE | (if abi >= 2 {
        FS_REFER
    } else {
        0u64
    }) | (if abi >= 3 {
        FS_TRUNCATE
    } else {
        0u64
    }) | (if abi >= 5 {
        FS_IOCTL_DEV
    } else {
        0u64
    })
}

/// What a ruleset of an ABI takes charge of: every access to files that it knows, binding
/// TCP ports, and sockets and signals outside the sandbox.
pub open spec fn attr_of(abi: i32) -> RulesetAttr {
    RulesetAttr {
        handled_access_fs: handled_fs(abi),
        handled_access_net: if abi >= 4 {
            NET_BIND_TCP
        } else {
            0
        },
        scoped: if abi >= 6 {
            SCOPED_ABSTRACT_UNIX_SOCKET | SCOPED_SIGNAL
        } else {
            0
        },
    }
}

/// What a ruleset of an ABI takes charge of.
pub fn ruleset_attr(abi: i32) -> (r: RulesetAttr)
    ensures
        r == attr_of(abi),
{
    let refer: u64 = if abi >= 2 {
        FS_REFER
    } else {
        0
    };
    let truncate: u64 = if abi >= 3 {
        FS_TRUNCATE
    } else {
        0
    };
    let ioctl: u64 = if abi >= 5 {
        FS_IOCTL_DEV
    } else {
        0
    };
    RulesetAttr {
        handled_access_fs: FS_BASE | refer | truncate | ioctl,
        handled_access_net: if abi >= 4 {
            NET_BIND_TCP
        } else {
            0
        },
        scoped: if abi >= 6 {
            SCOPED_ABSTRACT_UNIX_SOCKET | SCOPED_SIGNAL
        } else {
            0
        },
    }
}

/// What is granted beneath a path.
pub struct PathRule {
    pub path: String,
    pub access: u64,
}

/// What is granted beneath a path.
pub struct RuleView {
    pub path: Seq<char>,
    pub access: u64,
}

impl View for PathRule {
    type V = RuleView;

    open spec fn view(&self) -> RuleView {
        RuleView { path: self.path@, access: self.access }
    }
}

/// What a run of rules denotes.
pub open spec fn rule_views(v: Seq<PathRule>) -> Seq<RuleView> {
    Seq::new(v.len(), |i: int| v[i]@)
}

/// The directories with programs and what they need.
pub open spec fn program_dirs() -> Seq<Seq<char>> {
    seq![
        "/usr"@,
        "/bin"@,
        "/sbin"@,
        "/lib"@,
        "/lib64"@,
        "/lib32"@,
        "/libx32"@,
        "/etc"@,
        "/opt"@,
        "/run"@,
    ]
}

/// The directories in which the system tells of itself.
pub open spec fn info_dirs() -> Seq<Seq<char>> {
    seq!["/proc"@, "/sys"@]
}

/// The standard device nodes. `/dev` itself is not granted: what is granted of a directory
/// is granted of all beneath it, and `/dev/shm` is shared between sandboxes.
pub open spec fn device_nodes() -> Seq<Seq<char>> {
    seq![
        "/dev/null"@,
        "/dev/zero"@,
        "/dev/full"@,
        "/dev/random"@,
        "/dev/urandom"@,
        "/dev/tty"@,
        "/dev/console"@,
        "/dev/ptmx"@,
    ]
}

/// The directory of the terminals.
pub open spec fn terminal_dirs() -> Seq<Seq<char>> {
    seq!["/dev/pts"@]
}

/// Rules that grant the same beneath each path.
pub open spec fn rules_for(paths: Seq<Seq<char>>, access: u64) -> Seq<RuleView> {
    Seq::new(paths.len(), |i: int| RuleView { path: paths[i], access })
}

/// What may be done in directories with programs.
pub open spec fn program_access(handled: u64) -> u64 {
    (FS_EXECUTE | FS_READ_FILE | FS_READ_DIR) & handled
}

/// What may be done in directories in which the system tells of itself.
pub open spec fn info_access(handled: u64) -> u64 {
    (FS_READ_FILE | FS_READ_DIR) & handled
}

/// What may be done with device nodes.
pub open spec fn device_access(handled: u64) -> u64 {
    (FS_READ_FILE | FS_WRITE_FILE | FS_IOCTL_DEV) & handled
}

/// What may be done in the directory of the terminals.
pub open spec fn terminal_access(handled: u64) -> u64 {
    (FS_READ_FILE | FS_WRITE_FILE | FS_READ_DIR | FS_IOCTL_DEV) & handled
}

/// What every sandbox may touch.
pub open spec fn system_rules(handled: u64) -> Seq<RuleView> {
    rules_for(program_dirs(), program_access(handled)) + rules_for(
        info_dirs(),
        info_access(handled),
    ) + rules_for(device_nodes(), device_access(handled)) + rules_for(
        terminal_dirs(),
        terminal_access(handled),
    )
}

fn push_rules(rules: &mut Vec<PathRule>, paths: &[&'static str], access: u64)
    ensures
        rule_views(final(rules)@) == rule_views(old(rules)@) + rules_for(text::texts(paths@), access),
{
    let ghost before = rules@;
    let mut i: usize = 0;
    while i < paths.len()
        invariant
            i <= paths@.len(),
            rules@.len() == before.len() + i,
            forall|j: int| 0 <= j < before.len() ==> rules@[j] == before[j],
            forall|j: int|
                0 <= j < i ==> (#[trigger] rules@[before.len() + j])@ == (RuleView {
                    path: paths@[j]@,
                    access,
                }),
        decreases paths@.len() - i,
    {
        let ghost old_rules = rules@;
        rules.push(PathRule { path: paths[i].to_owned(), access });
        assert forall|j: int| 0 <= j < i implies (#[trigger] rules@[before.len() + j])@ == (RuleView {
            path: paths@[j]@,
            access,
        }) by {
            assert(rules@[before.len() + j] == old_rules[before.len() + j]);
        }
        i += 1;
    }
    assert(rule_views(rules@) =~= rule_views(before) + rules_for(text::texts(paths@), access)) by {
        let all = rule_views(before) + rules_for(text::texts(paths@), access);
        assert forall|j: int| 0 <= j < all.len() implies rule_views(rules@)[j] == all[j] by {
            if j >= before.len() {
                let k = j - before.len();
                assert(rules@[before.len() + k]@ == (RuleView { path: paths@[k]@, access }));
            }
        }
    }
}

/// What every sandbox may touch, under an ABI. A path that an image has not is left out
/// when the ruleset is built.
pub fn system_dir_rules(abi: i32) -> (r: Vec<PathRule>)
    ensures
        rule_views(r@) == system_rules(handled_fs(abi)),
{
    let handled: u64 = ruleset_attr(abi).handled_access_fs;
    let mut rules: Vec<PathRule> = Vec::new();
    assert(rule_views(rules@) =~= Seq::<RuleView>::empty());
    let programs: [&'static str; 10] = [
        "/usr",
        "/bin",
        "/sbin",
        "/lib",
        "/lib64",
        "/lib32",
        "/libx32",
        "/etc",
        "/opt",
        "/run",
    ];
    assert(text::texts(programs@) =~= program_dirs());
    let infos: [&'static str; 2] = ["/proc", "/sys"];
    assert(text::texts(infos@) =~= info_dirs());
    let nodes: [&'static str; 8] = [
        "/dev/null",
        "/dev/zero",
        "/dev/full",
        "/dev/random",
        "/dev/urandom",
        "/dev/tty",
        "/dev/console",
        "/dev/ptmx",
    ];
    assert(text::texts(nodes@) =~= device_nodes());
    let terminals: [&'static str; 1] = ["/dev/pts"];
    assert(text::texts(terminals@) =~= terminal_dirs());
    push_rules(
        &mut rules,
        programs.as_slice(),
        (FS_EXECUTE | FS_READ_FILE | FS_READ_DIR) & handled,
    );
    push_rules(&mut rules, infos.as_slice(), (FS_READ_FILE | FS_READ_DIR) & handled);
    push_rules(
        &mut rules,
        nodes.as_slice(),
        (FS_READ_FILE | FS_WRITE_FILE | FS_IOCTL_DEV) & handled,
    );
    push_rules(
        &mut rules,
        terminals.as_slice(),
        (FS_READ_FILE | FS_WRITE_FILE | FS_READ_DIR | FS_IOCTL_DEV) & handled,
    );
    assert(rule_views(rules@) =~= system_rules(handled));
    rules
}

/// The ruleset of one sandbox.
pub struct Ruleset {
    pub attr: RulesetAttr,
    pub rules: Vec<PathRule>,
}

/// What the sandbox with the given home may touch.
pub open spec fn rules_of(home: Seq<char>, abi: i32) -> Seq<RuleView> {
    system_rules(handled_fs(abi)).push(RuleView { path: home, access: handled_fs(abi) })
}

/// The ruleset of the sandbox with the given home. There is none when rulesets cannot be
/// used.
pub fn build_ruleset(home: &str, abi: i32) -> (r: Option<Ruleset>)
    ensures
        match r {
            Some(s) => abi >= 1 && s.attr == attr_of(abi) && rule_views(s.rules@) == rules_of(
                home@,
                abi,
            ),
            None => abi < 1,
        },
{
    if abi < 1 {
        return None;
    }
    let attr = ruleset_attr(abi);
    let mut rules = system_dir_rules(abi);
    let ghost before = rule_views(rules@);
    rules.push(PathRule { path: home.to_owned(), access: attr.handled_access_fs });
    assert(rule_views(rules@) =~= before.push(RuleView { path: home@, access: handled_fs(abi) }));
    Some(Ruleset { attr, rules })
}

/// What an ABI brings, in the order in which it came.
pub open spec fn features_of(abi: i32) -> Seq<Seq<char>> {
    (if abi >= 1 {
        seq!["fs"@]
    } else {
        Seq::empty()
    }) + (if abi >= 2 {
        seq!["refer"@]
    } else {
        Seq::empty()
    }) + (if abi >= 3 {
        seq!["truncate"@]
    } else {
        Seq::empty()
    }) + (if abi >= 4 {
        seq!["no-tcp-bind"@]
    } else {
        Seq::empty()
    }) + (if abi >= 5 {
        seq!["ioctl-dev"@]
    } else {
        Seq::empty()
    }) + (if abi >= 6 {
        seq!["scoped-abstract-sockets"@, "scoped-signals"@]
    } else {
        Seq::empty()
    })
}

/// What an ABI brings.
pub fn features(abi: i32) -> (r: Vec<&'static str>)
    ensures
        text::texts(r@) == features_of(abi),
{
    let mut r: Vec<&'static str> = Vec::new();
    if abi >= 1 {
        r.push("fs");
    }
    if abi >= 2 {
        r.push("refer");
    }
    if abi >= 3 {
        r.push("truncate");
    }
    if abi >= 4 {
        r.push("no-tcp-bind");
    }
    if abi >= 5 {
        r.push("ioctl-dev");
    }
    if abi >= 6 {
        r.push("scoped-abstract-sockets");
        r.push("scoped-signals");
    }
    assert(text::texts(r@) =~= features_of(abi));
    r
}

/// Whether a server may start: a host needs the ABI that its promises rest on, unless the
/// operator accepted that sandboxes are not confined.
pub fn abi_suffices(host_mode: bool, abi: i32, min_abi: i32, allow_unconfined: bool) -> (r: bool)
    ensures
        r == (!host_mode || abi >= min_abi || allow_unconfined),
{
    !host_mode || abi >= min_abi || allow_unconfined
}

// ---------------------------------------------------------------------------
// What holds of every ruleset
// ---------------------------------------------------------------------------

/// The accesses that change what a directory holds, or how long a file is.
pub open spec fn reshaping() -> u64 {
    FS_MAKE_REMOVE | FS_REFER | FS_TRUNCATE
}

proof fn lemma_accesses(handled: u64)
    ensures
        program_access(handled) & FS_WRITE_FILE == 0,
        info_access(handled) & FS_WRITE_FILE == 0,
        program_access(handled) & reshaping() == 0,
        info_access(handled) & reshaping() == 0,
        device_access(handled) & reshaping() == 0,
        terminal_access(handled) & reshaping() == 0,
        program_access(handled) & handled == program_access(handled),
        info_access(handled) & handled == info_access(handled),
        device_access(handled) & handled == device_access(handled),
        terminal_access(handled) & handled == terminal_access(handled),
        handled & handled == handled,
{
    assert(((0x1u64 | 0x4u64 | 0x8u64) & handled) & 0x2u64 == 0) by (bit_vector);
    assert(((0x4u64 | 0x8u64) & handled) & 0x2u64 == 0) by (bit_vector);
    assert(((0x1u64 | 0x4u64 | 0x8u64) & handled) & (0x1ff0u64 | 0x2000u64 | 0x4000u64) == 0)
        by (bit_vector);
    assert(((0x4u64 | 0x8u64) & handled) & (0x1ff0u64 | 0x2000u64 | 0x4000u64) == 0) by (bit_vector);
    assert(((0x4u64 | 0x2u64 | 0x8000u64) & handled) & (0x1ff0u64 | 0x2000u64 | 0x4000u64) == 0)
        by (bit_vector);
    assert(((0x4u64 | 0x2u64 | 0x8u64 | 0x8000u64) & handled) & (0x1ff0u64 | 0x2000u64 | 0x4000u64)
        == 0) by (bit_vector);
    assert(((0x1u64 | 0x4u64 | 0x8u64) & handled) & handled == (0x1u64 | 0x4u64 | 0x8u64) & handled)
        by (bit_vector);
    assert(((0x4u64 | 0x8u64) & handled) & handled == (0x4u64 | 0x8u64) & handled) by (bit_vector);
    assert(((0x4u64 | 0x2u64 | 0x8000u64) & handled) & handled == (0x4u64 | 0x2u64 | 0x8000u64)
        & handled) by (bit_vector);
    assert(((0x4u64 | 0x2u64 | 0x8u64 | 0x8000u64) & handled) & handled == (0x4u64 | 0x2u64 | 0x8u64
        | 0x8000u64) & handled) by (bit_vector);
    assert(handled & handled == handled) by (bit_vector);
}

/// The paths that every sandbox may touch.
pub open spec fn system_paths() -> Seq<Seq<char>> {
    program_dirs() + info_dirs() + device_nodes() + terminal_dirs()
}

/// Which rule stands where.
proof fn lemma_rule(home: Seq<char>, abi: i32, i: int)
    requires
        0 <= i < rules_of(home, abi).len(),
    ensures
        rules_of(home, abi).len() == system_paths().len() + 1,
        i == system_paths().len() ==> rules_of(home, abi)[i] == (RuleView {
            path: home,
            access: handled_fs(abi),
        }),
        i < system_paths().len() ==> {
            let rule = rules_of(home, abi)[i];
            let h = handled_fs(abi);
            &&& rule.path == system_paths()[i]
            &&& {
                ||| rule.access == program_access(h)
                ||| rule.access == info_access(h)
                ||| rule.access == device_access(h) && device_nodes().contains(rule.path)
                ||| rule.access == terminal_access(h) && terminal_dirs().contains(rule.path)
            }
        },
{
    let h = handled_fs(abi);
    let a = program_dirs().len();
    let b = info_dirs().len();
    let c = device_nodes().len();
    let d = terminal_dirs().len();
    if i < a {
        assert(rules_of(home, abi)[i] == rules_for(program_dirs(), program_access(h))[i]);
    } else if i < a + b {
        assert(rules_of(home, abi)[i] == rules_for(info_dirs(), info_access(h))[i - a]);
    } else if i < a + b + c {
        assert(rules_of(home, abi)[i] == rules_for(device_nodes(), device_access(h))[i - a - b]);
        assert(device_nodes()[i - a - b] == rules_of(home, abi)[i].path);
    } else if i < a + b + c + d {
        let k = i - a - b - c;
        assert(rules_of(home, abi)[i] == rules_for(terminal_dirs(), terminal_access(h))[k]);
        assert(terminal_dirs()[k] == rules_of(home, abi)[i].path);
    }
}

/// A sandbox may write to files in its home, to the standard device nodes and to terminals,
/// and nowhere else. Outside its home it can neither make nor remove anything, nor move it,
/// nor cut a file short. And no rule grants what the ruleset does not take charge of.
pub proof fn law_only_the_home_is_writable(home: Seq<char>, abi: i32, i: int)
    requires
        0 <= i < rules_of(home, abi).len(),
    ensures
        rules_of(home, abi)[i].access & FS_WRITE_FILE != 0 ==> rules_of(home, abi)[i].path == home
            || device_nodes().contains(rules_of(home, abi)[i].path) || terminal_dirs().contains(
            rules_of(home, abi)[i].path,
        ),
        rules_of(home, abi)[i].path != home ==> rules_of(home, abi)[i].access & reshaping() == 0,
        rules_of(home, abi)[i].access & handled_fs(abi) == rules_of(home, abi)[i].access,
{
    lemma_accesses(handled_fs(abi));
    lemma_rule(home, abi, i);
}

/// Whether what is granted of a directory is granted of a path: it is the directory, or
/// lies beneath it.
pub open spec fn covers(dir: Seq<char>, path: Seq<char>) -> bool {
    path == dir || (path.len() > dir.len() && path.take(dir.len() as int) == dir
        && path[dir.len() as int] == '/')
}

/// Whether neither of two paths lies beneath the other.
pub open spec fn apart(a: Seq<char>, b: Seq<char>) -> bool {
    !covers(a, b) && !covers(b, a)
}

proof fn lemma_apart(a: Seq<char>, b: Seq<char>, k: int)
    requires
        0 <= k < a.len(),
        k < b.len(),
        a[k] != b[k],
    ensures
        apart(a, b),
{
    if a.len() < b.len() {
        assert(b.take(a.len() as int)[k] == b[k]);
    }
    if b.len() < a.len() {
        assert(a.take(b.len() as int)[k] == a[k]);
    }
}

proof fn lemma_system_path(i: int)
    requires
        0 <= i < system_paths().len(),
    ensures
        apart(system_paths()[i], "/tmp"@),
        apart(system_paths()[i], "/dev/shm"@),
        apart(system_paths()[i], HOMES_DIR@),
        system_paths()[i] != "/dev"@,
{
    reveal_strlit("/usr");
    reveal_strlit("/bin");
    reveal_strlit("/sbin");
    reveal_strlit("/lib");
    reveal_strlit("/lib64");
    reveal_strlit("/lib32");
    reveal_strlit("/libx32");
    reveal_strlit("/etc");
    reveal_strlit("/opt");
    reveal_strlit("/run");
    reveal_strlit("/proc");
    reveal_strlit("/sys");
    reveal_strlit("/dev/null");
    reveal_strlit("/dev/zero");
    reveal_strlit("/dev/full");
    reveal_strlit("/dev/random");
    reveal_strlit("/dev/urandom");
    reveal_strlit("/dev/tty");
    reveal_strlit("/dev/console");
    reveal_strlit("/dev/ptmx");
    reveal_strlit("/dev/pts");
    reveal_strlit("/dev");
    reveal_strlit("/tmp");
    reveal_strlit("/dev/shm");
    reveal_strlit("/sbx/homes");
    let p = system_paths()[i];
    let a = program_dirs().len();
    let b = info_dirs().len();
    let c = device_nodes().len();
    if i < a {
        assert(p == program_dirs()[i]);
    } else if i < a + b {
        assert(p == info_dirs()[i - a]);
    } else if i < a + b + c {
        assert(p == device_nodes()[i - a - b]);
    } else {
        assert(p == terminal_dirs()[i - a - b - c]);
    }
    lemma_apart(p, "/tmp"@, 1);
    if i == 2 {
        lemma_apart(p, HOMES_DIR@, 3);
    } else if i == 11 {
        lemma_apart(p, HOMES_DIR@, 2);
    } else {
        lemma_apart(p, HOMES_DIR@, 1);
    }
    if i < a + b {
        lemma_apart(p, "/dev/shm"@, 1);
    } else {
        lemma_apart(p, "/dev/shm"@, 5);
    }
}

/// What is shared between sandboxes is out of reach: no rule but that of the home reaches
/// `/tmp`, `/dev/shm` or the homes, or what is in them, and none is about `/dev` itself.
pub proof fn law_shared_places_are_out_of_reach(home: Seq<char>, abi: i32, i: int)
    requires
        0 <= i < rules_of(home, abi).len(),
        rules_of(home, abi)[i].path != home,
    ensures
        apart(rules_of(home, abi)[i].path, "/tmp"@),
        apart(rules_of(home, abi)[i].path, "/dev/shm"@),
        apart(rules_of(home, abi)[i].path, HOMES_DIR@),
        rules_of(home, abi)[i].path != "/dev"@,
{
    lemma_rule(home, abi, i);
    lemma_system_path(i);
}

/// No rule of a sandbox reaches the home of another one, or what is in it, nor `/tmp`, nor
/// `/dev/shm`, and none is about `/dev` itself.
pub proof fn law_other_homes_are_out_of_reach(id: Seq<char>, other: Seq<char>, abi: i32, i: int)
    requires
        0 <= i < rules_of(sandboxes::home_of(id), abi).len(),
        id != other,
        !id.contains('/'),
        !other.contains('/'),
    ensures
        apart(rules_of(sandboxes::home_of(id), abi)[i].path, sandboxes::home_of(other)),
        apart(rules_of(sandboxes::home_of(id), abi)[i].path, "/tmp"@),
        apart(rules_of(sandboxes::home_of(id), abi)[i].path, "/dev/shm"@),
        rules_of(sandboxes::home_of(id), abi)[i].path != "/dev"@,
{
    let home = sandboxes::home_of(id);
    let foreign = sandboxes::home_of(other);
    reveal_strlit("/sbx/homes");
    reveal_strlit("/");
    reveal_strlit("/tmp");
    reveal_strlit("/dev/shm");
    reveal_strlit("/dev");
    lemma_rule(home, abi, i);
    if i < system_paths().len() {
        lemma_system_path(i);
        let p = system_paths()[i];
        let m = HOMES_DIR@.len() as int;
        if covers(p, foreign) {
            if p.len() == foreign.len() {
                assert(foreign.take(m) =~= HOMES_DIR@);
                assert(covers(HOMES_DIR@, p));
            } else if p.len() > m {
                assert(p.take(m) =~= HOMES_DIR@) by {
                    assert(foreign.take(p.len() as int).take(m) =~= foreign.take(m));
                    assert(foreign.take(m) =~= HOMES_DIR@);
                }
                assert(p[m] == foreign.take(p.len() as int)[m]);
                assert(covers(HOMES_DIR@, p));
            } else {
                assert(foreign.take(p.len() as int) =~= HOMES_DIR@.take(p.len() as int));
                if p.len() == m {
                    assert(HOMES_DIR@.take(m) =~= HOMES_DIR@);
                } else {
                    assert(foreign[p.len() as int] == HOMES_DIR@[p.len() as int]);
                }
                assert(covers(p, HOMES_DIR@));
            }
        }
        if covers(foreign, p) && p != foreign {
            assert(p.take(foreign.len() as int).take(m) =~= p.take(m));
            assert(foreign.take(m) =~= HOMES_DIR@);
            assert(p[m] == p.take(foreign.len() as int)[m]);
            assert(covers(HOMES_DIR@, p));
        }
    } else {
        assert(home[1] == 's');
        lemma_apart(home, "/tmp"@, 1);
        lemma_apart(home, "/dev/shm"@, 1);
        assert("/dev"@[1] == 'd');
        lemma_beside(HOMES_DIR@ + "/"@, id, other);
        lemma_beside(HOMES_DIR@ + "/"@, other, id);
    }
}

/// Of two names in one directory, different and without a slash, neither covers the other.
proof fn lemma_beside(dir: Seq<char>, a: Seq<char>, b: Seq<char>)
    requires
        a != b,
        !b.contains('/'),
    ensures
        !covers(dir + a, dir + b),
{
    let x = dir + a;
    let y = dir + b;
    let n = dir.len() as int;
    if x == y {
        assert(x.skip(n) =~= a);
        assert(y.skip(n) =~= b);
    }
    if covers(x, y) {
        let k = x.len() as int;
        assert(y[k] == b[k - n]);
        assert(b.contains(b[k - n]));
    }
}

/// With the full ABI a sandbox can neither bind a TCP port nor reach sockets or processes
/// outside of it, and connecting is left alone.
pub proof fn law_full_abi_closes_the_network_channels(abi: i32)
    requires
        abi >= FULL_ABI,
    ensures
        attr_of(abi).handled_access_net == NET_BIND_TCP,
        attr_of(abi).scoped & SCOPED_ABSTRACT_UNIX_SOCKET != 0,
        attr_of(abi).scoped & SCOPED_SIGNAL != 0,
{
    assert((0x1u64 | 0x2u64) & 0x1u64 != 0) by (bit_vector);
    assert((0x1u64 | 0x2u64) & 0x2u64 != 0) by (bit_vector);
}

// ---------------------------------------------------------------------------
// What a ruleset grants
// ---------------------------------------------------------------------------

/// The accesses that a ruleset takes charge of, by ABI: the thirteen of the first, linking
/// across directories from the second on, cutting files short from the third on, and control
/// of devices from the fifth on; binding TCP ports from the fourth on; and sockets and signals
/// outside from the sixth on.
pub proof fn law_abis_take_charge_of_more_and_more(abi: i32)
    ensures
        abi < 2 ==> handled_fs(abi) == 0x1fff,
        abi == 2 ==> handled_fs(abi) == 0x3fff,
        3 <= abi < 5 ==> handled_fs(abi) == 0x7fff,
        abi >= 5 ==> handled_fs(abi) == 0xffff,
        attr_of(abi).handled_access_fs == handled_fs(abi),
        abi < 4 ==> attr_of(abi).handled_access_net == 0,
        abi >= 4 ==> attr_of(abi).handled_access_net == 1,
        abi < 6 ==> attr_of(abi).scoped == 0,
        abi >= 6 ==> attr_of(abi).scoped == 3,
        FULL_ABI == 6,
{
    assert(0x1fffu64 | 0u64 | 0u64 | 0u64 == 0x1fffu64) by (bit_vector);
    assert(0x1fffu64 | 0x2000u64 | 0u64 | 0u64 == 0x3fffu64) by (bit_vector);
    assert(0x1fffu64 | 0x2000u64 | 0x4000u64 | 0u64 == 0x7fffu64) by (bit_vector);
    assert(0x1fffu64 | 0x2000u64 | 0x4000u64 | 0x8000u64 == 0xffffu64) by (bit_vector);
    assert(0x1u64 | 0x2u64 == 0x3u64) by (bit_vector);
}

proof fn lemma_access_values(abi: i32)
    ensures
        program_access(handled_fs(abi)) == 0xd,
        info_access(handled_fs(abi)) == 0xc,
        abi < 5 ==> device_access(handled_fs(abi)) == 0x6,
        abi >= 5 ==> device_access(handled_fs(abi)) == 0x8006,
        abi < 5 ==> terminal_access(handled_fs(abi)) == 0xe,
        abi >= 5 ==> terminal_access(handled_fs(abi)) == 0x800e,
{
    law_abis_take_charge_of_more_and_more(abi);
    let h = handled_fs(abi);
    assert((0x1u64 | 0x4u64 | 0x8u64) & h == 0xdu64) by (bit_vector)
        requires
            h == 0x1fffu64 || h == 0x3fffu64 || h == 0x7fffu64 || h == 0xffffu64,
    ;
    assert((0x4u64 | 0x8u64) & h == 0xcu64) by (bit_vector)
        requires
            h == 0x1fffu64 || h == 0x3fffu64 || h == 0x7fffu64 || h == 0xffffu64,
    ;
    if abi < 5 {
        assert((0x4u64 | 0x2u64 | 0x8000u64) & h == 0x6u64) by (bit_vector)
            requires
                h == 0x1fffu64 || h == 0x3fffu64 || h == 0x7fffu64,
        ;
        assert((0x4u64 | 0x2u64 | 0x8u64 | 0x8000u64) & h == 0xeu64) by (bit_vector)
            requires
                h == 0x1fffu64 || h == 0x3fffu64 || h == 0x7fffu64,
        ;
    } else {
        assert((0x4u64 | 0x2u64 | 0x8000u64) & h == 0x8006u64) by (bit_vector)
            requires
                h == 0xffffu64,
        ;
        assert((0x4u64 | 0x2u64 | 0x8u64 | 0x8000u64) & h == 0x800eu64) by (bit_vector)
            requires
                h == 0xffffu64,
        ;
    }
}

/// What is granted: running and reading in the directories with programs; reading where the
/// system tells of itself; reading and writing the device nodes, and controlling them where
/// the ABI has that; the same and listing for the terminals; and everything in the home. There
/// is no other rule.
pub proof fn law_rules_grant_what_a_sandbox_needs(home: Seq<char>, abi: i32)
    ensures
        rules_of(home, abi).len() == 22,
        rules_of(home, abi)[0] == (RuleView { path: "/usr"@, access: 0xd }),
        rules_of(home, abi)[1] == (RuleView { path: "/bin"@, access: 0xd }),
        rules_of(home, abi)[2] == (RuleView { path: "/sbin"@, access: 0xd }),
        rules_of(home, abi)[3] == (RuleView { path: "/lib"@, access: 0xd }),
        rules_of(home, abi)[4] == (RuleView { path: "/lib64"@, access: 0xd }),
        rules_of(home, abi)[5] == (RuleView { path: "/lib32"@, access: 0xd }),
        rules_of(home, abi)[6] == (RuleView { path: "/libx32"@, access: 0xd }),
        rules_of(home, abi)[7] == (RuleView { path: "/etc"@, access: 0xd }),
        rules_of(home, abi)[8] == (RuleView { path: "/opt"@, access: 0xd }),
        rules_of(home, abi)[9] == (RuleView { path: "/run"@, access: 0xd }),
        rules_of(home, abi)[10] == (RuleView { path: "/proc"@, access: 0xc }),
        rules_of(home, abi)[11] == (RuleView { path: "/sys"@, access: 0xc }),
        rules_of(home, abi)[12] == (RuleView {
            path: "/dev/null"@,
            access: if abi < 5 {
                0x6
            } else {
                0x8006
            },
        }),
        rules_of(home, abi)[13] == (RuleView {
            path: "/dev/zero"@,
            access: if abi < 5 {
                0x6
            } else {
                0x8006
            },
        }),
        rules_of(home, abi)[14] == (RuleView {
            path: "/dev/full"@,
            access: if abi < 5 {
                0x6
            } else {
                0x8006
            },
        }),
        rules_of(home, abi)[15] == (RuleView {
            path: "/dev/random"@,
            access: if abi < 5 {
                0x6
            } else {
                0x8006
            },
        }),
        rules_of(home, abi)[16] == (RuleView {
            path: "/dev/urandom"@,
            access: if abi < 5 {
                0x6
            } else {
                0x8006
            },
        }),
        rules_of(home, abi)[17] == (RuleView {
            path: "/dev/tty"@,
            access: if abi < 5 {
                0x6
            } else {
                0x8006
            },
        }),
        rules_of(home, abi)[18] == (RuleView {
            path: "/dev/console"@,
            access: if abi < 5 {
                0x6
            } else {
                0x8006
            },
        }),
        rules_of(home, abi)[19] == (RuleView {
            path: "/dev/ptmx"@,
            access: if abi < 5 {
                0x6
            } else {
                0x8006
            },
        }),
        rules_of(home, abi)[20] == (RuleView {
            path: "/dev/pts"@,
            access: if abi < 5 {
                0xe
            } else {
                0x800e
            },
        }),
        rules_of(home, abi)[21].path == home,
        abi >= 5 ==> rules_of(home, abi)[21].access == 0xffff,
        3 <= abi < 5 ==> rules_of(home, abi)[21].access == 0x7fff,
        abi == 2 ==> rules_of(home, abi)[21].access == 0x3fff,
        abi < 2 ==> rules_of(home, abi)[21].access == 0x1fff,
{
    let h = handled_fs(abi);
    law_abis_take_charge_of_more_and_more(abi);
    lemma_access_values(abi);
    assert(rules_of(home, abi)[0] == rules_for(program_dirs(), program_access(h))[0]);
    assert(rules_of(home, abi)[1] == rules_for(program_dirs(), program_access(h))[1]);
    assert(rules_of(home, abi)[2] == rules_for(program_dirs(), program_access(h))[2]);
    assert(rules_of(home, abi)[3] == rules_for(program_dirs(), program_access(h))[3]);
    assert(rules_of(home, abi)[4] == rules_for(program_dirs(), program_access(h))[4]);
    assert(rules_of(home, abi)[5] == rules_for(program_dirs(), program_access(h))[5]);
    assert(rules_of(home, abi)[6] == rules_for(program_dirs(), program_access(h))[6]);
    assert(rules_of(home, abi)[7] == rules_for(program_dirs(), program_access(h))[7]);
    assert(rules_of(home, abi)[8] == rules_for(program_dirs(), program_access(h))[8]);
    assert(rules_of(home, abi)[9] == rules_for(program_dirs(), program_access(h))[9]);
    assert(rules_of(home, abi)[10] == rules_for(info_dirs(), info_access(h))[0]);
    assert(rules_of(home, abi)[11] == rules_for(info_dirs(), info_access(h))[1]);
    assert(rules_of(home, abi)[12] == rules_for(device_nodes(), device_access(h))[0]);
    assert(rules_of(home, abi)[13] == rules_for(device_nodes(), device_access(h))[1]);
    assert(rules_of(home, abi)[14] == rules_for(device_nodes(), device_access(h))[2]);
    assert(rules_of(home, abi)[15] == rules_for(device_nodes(), device_access(h))[3]);
    assert(rules_of(home, abi)[16] == rules_for(device_nodes(), device_access(h))[4]);
    assert(rules_of(home, abi)[17] == rules_for(device_nodes(), device_access(h))[5]);
    assert(rules_of(home, abi)[18] == rules_for(device_nodes(), device_access(h))[6]);
    assert(rules_of(home, abi)[19] == rules_for(device_nodes(), device_access(h))[7]);
    assert(rules_of(home, abi)[20] == rules_for(terminal_dirs(), terminal_access(h))[0]);
}

/// Each ABI brings what those before it brought, and something more, up to the sixth.
pub proof fn law_features_come_with_their_abi(abi: i32, i: int)
    ensures
        abi <= 0 ==> features_of(abi).len() == 0,
        1 <= abi <= 5 ==> features_of(abi).len() == abi,
        abi >= 6 ==> features_of(abi).len() == 7,
        0 <= i < features_of(abi).len() ==> features_of(abi)[i] == seq![
            "fs"@,
            "refer"@,
            "truncate"@,
            "no-tcp-bind"@,
            "ioctl-dev"@,
            "scoped-abstract-sockets"@,
            "scoped-signals"@,
        ][i],
{
    if 0 <= i < features_of(abi).len() {
        assert(i == 0 || i == 1 || i == 2 || i == 3 || i == 4 || i == 5 || i == 6);
    }
}

/// A run of rules denotes each of them, in its place.
pub proof fn law_rules_denote_themselves(v: Seq<PathRule>, i: int)
    ensures
        rule_views(v).len() == v.len(),
        0 <= i < v.len() ==> rule_views(v)[i].path == v[i].path@ && rule_views(v)[i].access
            == v[i].access,
{
}

} // verus!
