use sbx_server::procfs::{
    lists_uid, pids_of_uid, read_real_uid, read_zombie, uids_already_in_use, ProcInfo, UID_BASE, UID_MAX,
};
use sbx_server::uids::UidPool;

fn status(state: &str, uid: u32) -> String {
    format!("Name:\tsleep\nUmask:\t0022\nState:\t{state}\nTgid:\t7\nUid:\t{uid}\t0\t0\t0\nGid:\t0\t0\t0\t0\n")
}

fn process(name: &str, state: &str, uid: u32) -> ProcInfo {
    ProcInfo { name: name.to_string(), status: status(state, uid) }
}

fn none() -> Vec<ProcInfo> {
    Vec::new()
}

#[test]
fn a_released_uid_is_reused_before_a_fresh_one() {
    let mut pool = UidPool::default();
    let first = pool.take(&none()).unwrap();
    let second = pool.take(&none()).unwrap();
    assert_eq!((first, second), (UID_BASE, UID_BASE + 1));

    pool.release(first);
    // Reuse, rather than burning through the range.
    assert_eq!(pool.take(&none()), Some(first));
    assert_eq!(pool.take(&none()), Some(UID_BASE + 2));
}

#[test]
fn a_quarantined_uid_is_never_handed_out() {
    let mut pool = UidPool::default();
    pool.quarantine(UID_BASE);
    pool.quarantine(UID_BASE + 2);

    // Skipped whether they are ahead of the cursor...
    assert_eq!(pool.take(&none()), Some(UID_BASE + 1));
    assert_eq!(pool.take(&none()), Some(UID_BASE + 3));
    // ...or released afterwards by mistake: quarantine is checked at hand-out.
    let mut pool = UidPool::default();
    let uid = pool.take(&none()).unwrap();
    pool.quarantine(uid);
    let mut fresh = UidPool::with_reserved(&vec![uid]);
    assert_ne!(fresh.take(&none()), Some(uid));
}

#[test]
fn a_quarantined_uid_that_is_released_stays_quarantined() {
    let mut pool = UidPool::default();
    let uid = pool.take(&none()).unwrap();
    pool.quarantine(uid);
    pool.release(uid);
    assert_eq!(pool.take(&none()), Some(UID_BASE + 1));
    assert_eq!(pool.take(&none()), Some(UID_BASE + 2));
}

#[test]
fn uids_already_used_by_the_image_are_reserved() {
    // A collision puts two sandboxes under one uid.
    let mut pool = UidPool::with_reserved(&vec![UID_BASE, UID_BASE + 1]);
    assert_eq!(pool.take(&none()), Some(UID_BASE + 2));
}

#[test]
fn exhaustion_is_reported_rather_than_wrapping() {
    let mut pool = UidPool { next: UID_MAX - UID_BASE - 1, free: Vec::new(), quarantined: Vec::new() };
    assert_eq!(pool.take(&none()), Some(UID_MAX - 1));
    assert_eq!(pool.take(&none()), None, "handed out a uid at or past UID_MAX");
    assert_eq!(pool.take(&none()), None, "exhaustion must be stable, not intermittent");
}

#[test]
fn the_range_stays_inside_the_container_uid_map() {
    assert!(UID_BASE >= 20_000);
    assert!(UID_MAX <= 65_535);
    assert!(UID_MAX > UID_BASE);
}

#[test]
fn a_free_uid_with_live_processes_is_quarantined_at_hand_out() {
    // A process that is certainly alive stands in for "teardown said it was clean".
    let ours = 20_007;
    let alive = vec![process("42", "S (sleeping)", ours)];
    let mut pool = UidPool { next: 0, free: vec![ours], quarantined: Vec::new() };
    assert_ne!(pool.take(&alive), Some(ours), "reused a uid that still owns processes");
    assert!(pool.quarantined.contains(&ours));
}

#[test]
fn zombies_do_not_count_as_live_processes() {
    // A zombie cannot be killed and holds nothing.
    let ours = 1000;
    let procs = vec![process("1", "R (running)", ours), process("2", "Z (zombie)", ours)];
    assert!(!pids_of_uid(&procs, ours).is_empty(), "expected to find this test process");
    assert_eq!(pids_of_uid(&procs, ours), vec![1]);
    assert!(pids_of_uid(&procs, u32::MAX - 1).is_empty());
}

#[test]
fn processes_are_told_apart_from_the_rest_of_proc() {
    let procs = vec![
        process("self", "R (running)", 20_001),
        process("+12", "R (running)", 20_001),
        ProcInfo { name: "13".to_string(), status: String::new() },
        process("14", "R (running)", 20_002),
        process("99999999999", "R (running)", 20_001),
    ];
    assert_eq!(pids_of_uid(&procs, 20_001), vec![12]);
    assert_eq!(read_real_uid("Uid:\t7\t8\n"), Some(7));
    assert_eq!(read_real_uid("Uid:\n"), None);
    assert_eq!(read_real_uid("Gid:\t7\nUid: x\nUid:\t7\n"), None);
    assert!(read_zombie("State:\tZ (zombie)\n"));
    assert!(!read_zombie("State:\tS (sleeping)\n"));
    assert!(!read_zombie(""));
}

#[test]
fn uids_in_use_come_from_accounts_and_processes() {
    let passwd = "root:x:0:0::/root:/bin/sh\r\na:x:20005:1::/:\nb:x:oops\nc:x:65000:1\nd:x:20005:1\n";
    let procs = vec![process("5", "Z (zombie)", 30_000), process("6", "S (sleeping)", 20_005)];
    assert_eq!(uids_already_in_use(passwd, &procs), vec![20_005, 20_005, 30_000]);
    assert!(lists_uid(&vec![1, 2], 2));
    assert!(!lists_uid(&vec![1, 2], 3));
}
