use sbx_server::files::name_of;
use sbx_server::fsutil::{
    check_readable, check_writable, components_of, join_path, normalize_relative, open_flags,
    path_components, proc_fd_path, removal_of, removal_order, FileKind, FsRefusal, FsStep, OpenMode,
    Removal, ScopedRoot,
};
use sbx_server::order::is_before;
use sbx_server::sandboxes::chown_into_home;

#[test]
fn normalization_cannot_name_anything_outside_the_home() {
    for path in ["/etc/passwd", "../../etc/passwd", "a/../../../etc/passwd", "/", "./x"] {
        let rel = normalize_relative(path);
        assert!(!rel.starts_with('/'), "{path:?} normalized to an absolute path");
        assert!(
            !rel.split('/').any(|c| c == ".."),
            "{path:?} kept a `..` component"
        );
    }
    assert_eq!(normalize_relative("/a/b/../c"), "a/c");
}

#[test]
fn normalization_is_exact_and_idempotent() {
    for (path, want) in [
        ("", ""),
        ("/", ""),
        ("..", ""),
        ("a//b/./c/", "a/b/c"),
        ("a/../../b", "b"),
        ("/etc/passwd", "etc/passwd"),
        ("...", "..."),
    ] {
        assert_eq!(normalize_relative(path), want, "{path:?}");
        assert_eq!(normalize_relative(want), want, "{want:?}");
    }
}

#[test]
fn a_normalized_path_stays_under_its_home() {
    for path in ["../x", "/a/../../b", "", "c/d"] {
        let rel = normalize_relative(path);
        let whole = path_components(&join_path("/home/sbx-1", &rel));
        let home = path_components("/home/sbx-1");
        assert_eq!(whole[..home.len()], home[..]);
        assert_eq!(whole[home.len()..], components_of(&rel)[..]);
    }
    assert_eq!(path_components("./a/../b/"), vec![".", "a", "..", "b"]);
    assert_eq!(path_components("/"), vec!["/"]);
    assert_eq!(join_path("/a/", "b"), "/a/b");
    assert_eq!(join_path("/a", ""), "/a/");
    assert_eq!(join_path("", "b"), "b");
    assert_eq!(join_path("/a", "/b"), "/b");
}

fn texts(steps: &[FsStep]) -> Vec<String> {
    steps
        .iter()
        .map(|s| match s {
            FsStep::Mkdir(n) => format!("mkdir {n}"),
            FsStep::Open(n, OpenMode::Directory) => format!("enter {n}"),
            FsStep::Open(n, OpenMode::PathOnly) => format!("look {n}"),
            FsStep::Open(n, OpenMode::Read) => format!("read {n}"),
            FsStep::Open(n, OpenMode::Write { truncate }) => format!("write {n} {truncate}"),
            FsStep::CheckReadable => "readable?".to_string(),
            FsStep::CheckWritable => "writable?".to_string(),
            FsStep::Own => "own".to_string(),
        })
        .collect()
}

#[test]
fn a_walk_goes_one_name_at_a_time() {
    let root = ScopedRoot::new("/sbx/homes/a", 20001);
    assert_eq!(root.display("x/y"), "/sbx/homes/a/x/y");
    let read = root.open_read("x/y").unwrap_or_else(|_| panic!());
    assert_eq!(texts(&read), ["enter x", "read y", "readable?"]);
    let write = root.open_write("x/y", true, None).unwrap_or_else(|_| panic!());
    assert_eq!(texts(&write), ["mkdir x", "enter x", "own", "write y true", "writable?", "own"]);
    let ranged = root.open_write("y", false, Some(2)).unwrap_or_else(|_| panic!());
    assert_eq!(texts(&ranged), ["write y false", "writable?", "own"]);
    assert_eq!(texts(&root.metadata("x/y")), ["enter x", "look y"]);
    assert_eq!(texts(&root.list("x/y")), ["enter x", "enter y"]);
    assert_eq!(texts(&root.list("")), Vec::<String>::new());
    assert_eq!(texts(&root.mkdir_all("x/y")), ["mkdir x", "enter x", "own", "mkdir y", "enter y", "own"]);
    let (way, name) = root.delete("x/y").unwrap_or_else(|_| panic!());
    assert_eq!((texts(&way), name), (vec!["enter x".to_string()], "y".to_string()));
}

#[test]
fn the_home_itself_is_neither_a_file_nor_deleted() {
    let root = ScopedRoot::new("/sbx/homes/a", 20001);
    assert!(matches!(root.open_read(""), Err(FsRefusal::IsDirectory)));
    assert!(matches!(root.open_write("", true, None), Err(FsRefusal::IsDirectory)));
    assert!(matches!(root.delete(""), Err(FsRefusal::HomeItself)));
    assert_eq!(FsRefusal::HomeItself.message(), Some("cannot delete the sandbox home"));
    assert_eq!(FsRefusal::IsDirectory.message(), None);
}

#[test]
fn no_open_follows_a_link() {
    for mode in [OpenMode::Directory, OpenMode::PathOnly, OpenMode::Read, OpenMode::Write { truncate: true }] {
        let flags = open_flags(mode);
        assert!(flags.no_follow && flags.close_on_exec && flags.non_blocking);
    }
    let flags = open_flags(OpenMode::Write { truncate: false });
    assert!(flags.write && flags.create && !flags.truncate);
}

#[test]
fn only_regular_files_are_used() {
    assert_eq!(check_readable(FileKind::File), Ok(()));
    assert_eq!(check_readable(FileKind::Directory), Err(FsRefusal::IsDirectory));
    assert_eq!(check_readable(FileKind::Other), Err(FsRefusal::NotRegular));
    assert_eq!(check_writable(FileKind::Directory), Err(FsRefusal::NotRegular));
    assert_eq!(removal_of(Some(FileKind::Symlink), true), Removal::Unlink);
    assert_eq!(removal_of(Some(FileKind::Directory), true), Removal::RemoveTree);
    assert_eq!(removal_of(Some(FileKind::Directory), false), Removal::RemoveDirectory);
    assert_eq!(removal_of(None, true), Removal::Unlink);
    assert_eq!(removal_order(&vec![false, true, false]), (vec![0, 2], vec![1]));
    assert_eq!(proc_fd_path(7), "/proc/self/fd/7");
}

#[test]
fn what_is_between_a_target_and_its_home_is_given() {
    assert_eq!(
        chown_into_home("/sbx/homes/a", "/sbx/homes/a/.sbx/proxy"),
        vec!["/sbx/homes/a/.sbx/proxy", "/sbx/homes/a/.sbx"]
    );
    assert!(chown_into_home("/sbx/homes/a", "/sbx/homes/a").is_empty());
    assert!(chown_into_home("/sbx/homes/a", "/sbx/homes/ab/c").is_empty());
    assert!(chown_into_home("/sbx/homes/a", "/etc").is_empty());
}

#[test]
fn the_last_name_of_a_path_is_found() {
    for (path, want) in [("/a/b", "b"), ("/a/b/", "b"), ("a/.", "a"), ("a/..", ""), ("/", ""), ("", "")] {
        assert_eq!(name_of(path), want, "{path:?}");
    }
}

#[test]
fn names_are_ordered_as_texts_are() {
    let names = ["", "a", "ab", "b", "B", "\u{e9}", "\u{10000}", "\u{ffff}"];
    for a in names {
        for b in names {
            let (x, y): (Vec<char>, Vec<char>) = (a.chars().collect(), b.chars().collect());
            assert_eq!(is_before(&x, &y), a < b, "{a:?} {b:?}");
        }
    }
}
