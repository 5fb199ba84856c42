use tagfs::attr::{
    directory_attr, mode_to_filetype, stat_to_fuse, time_of, Attr, FileKind, NativeStat,
};
use tagfs::error::{errno, FsError, ENOENT, ENOTSUP};
use tagfs::index::{process, scan, FileMeta, TagFSEntry, Walked};
use tagfs::path::{bytes_eq, components_of, contains_bytes, is_subset};
use tagfs::tagfs::{DirEntry, GetattrStep, Node, TagFS, TTL_SECS};
use tagfs::xattr::XattrReply;

fn b(s: &str) -> Vec<u8> {
    s.as_bytes().to_vec()
}

fn dir(path: &str) -> Walked {
    Walked {
        path: b(path),
        meta: Some(FileMeta { is_file: false, size: 4096, absolute: b(&format!("/abs/{}", path)) }),
    }
}

fn file(path: &str, size: u64) -> Walked {
    Walked {
        path: b(path),
        meta: Some(FileMeta { is_file: true, size, absolute: b(&format!("/abs/{}", path)) }),
    }
}

fn scenario_walk() -> Vec<Walked> {
    vec![
        dir("root"),
        dir("root/docs"),
        dir("root/docs/2023"),
        file("root/docs/2023/report.txt", 10),
        dir("root/docs/2024"),
        file("root/docs/2024/report.txt", 20),
        file("root/readme.txt", 30),
    ]
}

fn scenario() -> TagFS {
    TagFS::new(&b("root"), &scenario_walk())
}

fn names(entries: &[DirEntry], kind: FileKind) -> Vec<String> {
    let mut v: Vec<String> = entries
        .iter()
        .filter(|e| e.kind == kind)
        .map(|e| String::from_utf8(e.name.clone()).unwrap())
        .collect();
    v.sort();
    v
}

fn strs(v: &[&str]) -> Vec<String> {
    let mut r: Vec<String> = v.iter().map(|s| s.to_string()).collect();
    r.sort();
    r
}

fn listing(fs: &TagFS, path: &str) -> Vec<(Vec<u8>, FileKind)> {
    fs.readdir(&b(path)).into_iter().map(|e| (e.name, e.kind)).collect()
}

fn native(mode: u32) -> NativeStat {
    NativeStat {
        mode,
        size: 1234,
        blocks: 8,
        nlink: 2,
        uid: 1000,
        gid: 100,
        rdev: 7,
        atime: 1_700_000_000,
        atime_nsec: 5,
        mtime: 1_600_000_000,
        mtime_nsec: 999_999_999,
        ctime: -2,
        ctime_nsec: 3,
    }
}

#[test]
fn scenario_root_lists_all_tags_and_every_file() {
    let fs = scenario();
    let l = fs.readdir(&b("/"));
    assert_eq!(names(&l, FileKind::Directory), strs(&["docs", "2023", "2024"]));
    assert_eq!(
        names(&l, FileKind::RegularFile),
        strs(&[
            "readme.txt",
            "report.txt~%2Fabs%2Froot%2Fdocs%2F2023%2Freport.txt",
            "report.txt~%2Fabs%2Froot%2Fdocs%2F2024%2Freport.txt",
        ])
    );
}

#[test]
fn scenario_docs_lists_remaining_tags() {
    let fs = scenario();
    let l = fs.readdir(&b("/docs"));
    assert_eq!(names(&l, FileKind::Directory), strs(&["2023", "2024"]));
    // both reports carry the tag docs; readme.txt carries none
    assert_eq!(
        names(&l, FileKind::RegularFile),
        strs(&[
            "report.txt~%2Fabs%2Froot%2Fdocs%2F2023%2Freport.txt",
            "report.txt~%2Fabs%2Froot%2Fdocs%2F2024%2Freport.txt",
        ])
    );
}

#[test]
fn scenario_docs_2023_lists_one_report() {
    let fs = scenario();
    let l = fs.readdir(&b("/docs/2023"));
    assert_eq!(names(&l, FileKind::Directory), strs(&["2024"]));
    assert_eq!(names(&l, FileKind::RegularFile), strs(&["report.txt"]));
}

#[test]
fn scenario_reversed_path_lists_the_same() {
    let fs = scenario();
    assert_eq!(listing(&fs, "/docs/2023"), listing(&fs, "/2023/docs"));
    assert_eq!(listing(&fs, "/docs/2023"), listing(&fs, "/2023/docs/2023/"));
}

#[test]
fn listing_puts_directories_first_in_index_order() {
    let fs = scenario();
    let l = listing(&fs, "/");
    let expect: Vec<(Vec<u8>, FileKind)> = vec![
        (b("docs"), FileKind::Directory),
        (b("2023"), FileKind::Directory),
        (b("2024"), FileKind::Directory),
        (b("report.txt~%2Fabs%2Froot%2Fdocs%2F2023%2Freport.txt"), FileKind::RegularFile),
        (b("report.txt~%2Fabs%2Froot%2Fdocs%2F2024%2Freport.txt"), FileKind::RegularFile),
        (b("readme.txt"), FileKind::RegularFile),
    ];
    assert_eq!(l, expect);
}

#[test]
fn unknown_tag_lists_no_files() {
    let fs = scenario();
    let l = fs.readdir(&b("/nosuch"));
    assert_eq!(names(&l, FileKind::Directory), strs(&["docs", "2023", "2024"]));
    assert!(names(&l, FileKind::RegularFile).is_empty());
}

#[test]
fn untagged_file_shows_at_root_only() {
    let fs = scenario();
    let root = names(&fs.readdir(&b("/")), FileKind::RegularFile);
    assert!(root.contains(&"readme.txt".to_string()));
    let docs = names(&fs.readdir(&b("/docs")), FileKind::RegularFile);
    assert!(!docs.contains(&"readme.txt".to_string()));
}

#[test]
fn index_holds_tags_and_files() {
    let fs = scenario();
    let tags: Vec<Vec<u8>> = fs.all_tags().clone();
    assert_eq!(tags, vec![b("docs"), b("2023"), b("2024")]);
    assert_eq!(fs.len(), 3);
    let e = fs.entry(0);
    assert_eq!(e.name(), &b("report.txt"));
    assert_eq!(e.absolute(), &b("/abs/root/docs/2023/report.txt"));
    assert_eq!(e.tags(), &vec![b("docs"), b("2023")]);
    assert!(fs.entry(2).tags().is_empty());
}

#[test]
fn scanning_twice_gives_the_same_index() {
    let a = scenario();
    let mut walk = scenario_walk();
    walk.reverse();
    let c = TagFS::new(&b("root"), &walk);
    let d = scenario();
    assert_eq!(a.all_tags(), d.all_tags());
    let mut ta = a.all_tags().clone();
    let mut tc = c.all_tags().clone();
    ta.sort();
    tc.sort();
    assert_eq!(ta, tc);
    assert_eq!(a.len(), c.len());
    for i in 0..a.len() {
        let e = a.entry(i);
        let m = c.entry(a.len() - 1 - i);
        assert_eq!(e.absolute(), m.absolute());
        assert_eq!(e.tags(), m.tags());
    }
}

#[test]
fn scan_skips_unreadable_and_non_files() {
    let walk = vec![
        dir("r"),
        Walked { path: b("r/a/broken"), meta: None },
        file("r/a/ok", 3),
    ];
    let entries = scan(&b("r"), &walk);
    assert_eq!(entries.len(), 1);
    assert_eq!(entries[0].name(), &b("ok"));
    assert_eq!(entries[0].tags(), &vec![b("a")]);
}

#[test]
fn process_yields_only_readable_files() {
    assert!(process(&b("r"), &dir("r/x")).is_none());
    assert!(process(&b("r"), &Walked { path: b("r/x/f"), meta: None }).is_none());
    let e = process(&b("r"), &file("r/x/f", 9)).unwrap();
    assert_eq!(e.name(), &b("f"));
    assert_eq!(e.absolute(), &b("/abs/r/x/f"));
}

#[test]
fn entry_tags_collapse_repeated_directories() {
    let e = TagFSEntry::new(&b("/data/"), &b("/data/a/b/a/f.txt"), b("/data/a/b/a/f.txt"), 1).unwrap();
    assert_eq!(e.tags(), &vec![b("a"), b("b")]);
    assert_eq!(e.name(), &b("f.txt"));
}

#[test]
fn entry_directly_under_root_has_no_tags() {
    let e = TagFSEntry::new(&b("./data"), &b("./data/f"), b("/x/data/f"), 1).unwrap();
    assert!(e.tags().is_empty());
}

#[test]
fn entry_outside_root_is_refused() {
    assert!(TagFSEntry::new(&b("data"), &b("other/f"), b("/other/f"), 1).is_none());
    assert!(TagFSEntry::new(&b("data"), &b("data"), b("/data"), 1).is_none());
}

#[test]
fn components_skip_separators_and_dots() {
    assert_eq!(components_of(&b("/a//b/./c/")), vec![b("a"), b("b"), b("c")]);
    assert_eq!(components_of(&b("x/../y")), vec![b("x"), b("y")]);
    assert!(components_of(&b("/")).is_empty());
    assert!(components_of(&b("")).is_empty());
    assert_eq!(components_of(&b("...")), vec![b("...")]);
}

#[test]
fn byte_helpers() {
    assert!(bytes_eq(&b("ab"), &b("ab")));
    assert!(!bytes_eq(&b("ab"), &b("ac")));
    assert!(!bytes_eq(&b("ab"), &b("a")));
    assert!(contains_bytes(&vec![b("x"), b("y")], &b("y")));
    assert!(!contains_bytes(&vec![b("x")], &b("y")));
    assert!(is_subset(&vec![], &vec![b("x")]));
    assert!(is_subset(&vec![b("x")], &vec![b("y"), b("x")]));
    assert!(!is_subset(&vec![b("z")], &vec![b("y"), b("x")]));
}

#[test]
fn parent_tags_of_a_path() {
    assert!(TagFS::tags(&b("/")).is_none());
    assert_eq!(TagFS::tags(&b("/a")).unwrap(), Vec::<Vec<u8>>::new());
    assert_eq!(TagFS::tags(&b("/a/b/f")).unwrap(), vec![b("a"), b("b")]);
}

#[test]
fn lookup_tells_directories_files_and_nothing_apart() {
    let fs = scenario();
    assert_eq!(fs.lookup(&b("/")), Node::Directory);
    assert_eq!(fs.lookup(&b("/2024/docs")), Node::Directory);
    assert_eq!(fs.lookup(&b("/docs/2023/report.txt")), Node::File(0));
    assert_eq!(fs.lookup(&b("/2024/report.txt")), Node::File(1));
    assert_eq!(fs.lookup(&b("/readme.txt")), Node::File(2));
    assert_eq!(fs.lookup(&b("/report.txt")), Node::Missing);
    assert_eq!(
        fs.lookup(&b("/report.txt~%2Fabs%2Froot%2Fdocs%2F2024%2Freport.txt")),
        Node::File(1)
    );
    assert_eq!(fs.lookup(&b("/docs/readme.txt")), Node::Missing);
    assert_eq!(fs.lookup(&b("/nosuch")), Node::Missing);
}

#[test]
fn getattr_steps() {
    let fs = scenario();
    match fs.getattr(&b("/docs")) {
        GetattrStep::Reply(Ok(a)) => assert_eq!(a, directory_attr()),
        other => panic!("unexpected {:?}", other),
    }
    match fs.getattr(&b("/docs/2023/report.txt")) {
        GetattrStep::Stat(p) => assert_eq!(p, b("/abs/root/docs/2023/report.txt")),
        other => panic!("unexpected {:?}", other),
    }
    match fs.getattr(&b("/docs/2025")) {
        GetattrStep::Reply(Err(e)) => assert_eq!(e, FsError::NotFound),
        other => panic!("unexpected {:?}", other),
    }
    assert_eq!(TTL_SECS, 1);
}

#[test]
fn finish_getattr_passes_stat_through() {
    let st = native(0o100644);
    let a = TagFS::finish_getattr(Ok(st)).unwrap();
    assert_eq!(a.size, st.size);
    assert_eq!(a.mtime, 1_600_000_000_999_999_999);
    assert_eq!(TagFS::finish_getattr(Err(13)), Err(FsError::Os(13)));
    assert_eq!(TagFS::finish_getattr(Ok(native(0o644))), Err(FsError::UnknownFileType(0o644)));
}

#[test]
fn mode_kinds() {
    assert_eq!(mode_to_filetype(0o040755), Some(FileKind::Directory));
    assert_eq!(mode_to_filetype(0o100644), Some(FileKind::RegularFile));
    assert_eq!(mode_to_filetype(0o120777), Some(FileKind::Symlink));
    assert_eq!(mode_to_filetype(0o060660), Some(FileKind::BlockDevice));
    assert_eq!(mode_to_filetype(0o020620), Some(FileKind::CharDevice));
    assert_eq!(mode_to_filetype(0o010600), Some(FileKind::NamedPipe));
    assert_eq!(mode_to_filetype(0o140755), Some(FileKind::Socket));
    assert_eq!(mode_to_filetype(0o000644), None);
    assert_eq!(mode_to_filetype(0o170000), None);
}

#[test]
fn stat_translation_is_exact() {
    let a = stat_to_fuse(&native(0o104755)).unwrap();
    let expect = Attr {
        kind: FileKind::RegularFile,
        perm: 0o4755,
        size: 1234,
        blocks: 8,
        atime: 1_700_000_000_000_000_005,
        mtime: 1_600_000_000_999_999_999,
        ctime: -1_999_999_997,
        crtime: 0,
        nlink: 2,
        uid: 1000,
        gid: 100,
        rdev: 7,
    };
    assert_eq!(a, expect);
    assert_eq!(stat_to_fuse(&native(0o7)), Err(FsError::UnknownFileType(0o7)));
}

#[test]
fn times_in_nanoseconds() {
    assert_eq!(time_of(0, 0), 0);
    assert_eq!(time_of(1, 2), 1_000_000_002);
    assert_eq!(time_of(-1, 0), -1_000_000_000);
    assert_eq!(time_of(i64::MAX, 999_999_999), i64::MAX as i128 * 1_000_000_000 + 999_999_999);
}

#[test]
fn directory_stub_is_fixed() {
    let a = directory_attr();
    assert_eq!(a.kind, FileKind::Directory);
    assert_eq!(a.perm, 0o755);
    assert_eq!(a.size, 0);
    assert_eq!(a.mtime, 0);
    assert_eq!(a.crtime, 0);
}

#[test]
fn listxattr_sizes_and_names() {
    let fs = scenario();
    match fs.listxattr(0) {
        XattrReply::Size(n) => assert_eq!(n as usize, "tagfs.strategy".len() + 1 + "tagfs.depth".len() + 1),
        other => panic!("unexpected {:?}", other),
    }
    match fs.listxattr(100) {
        XattrReply::Data(d) => assert_eq!(d, b("tagfs.strategy\0tagfs.depth\0")),
        other => panic!("unexpected {:?}", other),
    }
}

#[test]
fn getxattr_values() {
    let fs = scenario();
    match fs.getxattr(&b("tagfs.strategy"), 10) {
        XattrReply::Data(d) => assert_eq!(d, b("0")),
        other => panic!("unexpected {:?}", other),
    }
    match fs.getxattr(&b("tagfs.depth"), 10) {
        XattrReply::Data(d) => assert_eq!(d, b("1")),
        other => panic!("unexpected {:?}", other),
    }
    match fs.getxattr(&b("tagfs.depth"), 0) {
        XattrReply::Size(n) => assert_eq!(n, 1),
        other => panic!("unexpected {:?}", other),
    }
    match fs.getxattr(&b("user.other"), 0) {
        XattrReply::Size(n) => assert_eq!(n, 0),
        other => panic!("unexpected {:?}", other),
    }
    match fs.getxattr(&b("user.other"), 5) {
        XattrReply::Data(d) => assert!(d.is_empty()),
        other => panic!("unexpected {:?}", other),
    }
}

#[test]
fn setxattr_is_not_supported() {
    let fs = scenario();
    assert_eq!(fs.setxattr(), Err(FsError::NotSupported));
}

#[test]
fn init_and_opendir_succeed() {
    let fs = scenario();
    assert_eq!(fs.init(), Ok(()));
    assert_eq!(fs.opendir(&b("/docs")), (0, 0));
}

fn leaf_names(fs: &TagFS, path: &str) -> Vec<Vec<u8>> {
    fs.readdir(&b(path)).into_iter().filter(|e| e.kind == FileKind::RegularFile).map(|e| e.name).collect()
}

fn all_distinct(v: &[Vec<u8>]) -> bool {
    let mut w = v.to_vec();
    w.sort();
    w.dedup();
    w.len() == v.len()
}

#[test]
fn colon_in_a_path_does_not_merge_suffixes() {
    let walk = vec![dir("r"), file("r/a/b/x", 1), file("r/a:b/x", 2)];
    let fs = TagFS::new(&b("r"), &walk);
    let names = leaf_names(&fs, "/");
    assert_eq!(names.len(), 2);
    assert!(all_distinct(&names));
    assert_eq!(names[0], b("x~%2Fabs%2Fr%2Fa%2Fb%2Fx"));
    assert_eq!(names[1], b("x~%2Fabs%2Fr%2Fa:b%2Fx"));
    let mut p = b("/");
    p.extend_from_slice(&names[1]);
    assert_eq!(fs.lookup(&p), Node::File(1));
}

#[test]
fn suffixed_name_outgrows_a_file_named_like_it() {
    let walk = vec![
        dir("r"),
        file("r/p/x", 1),
        file("r/q/x", 2),
        file("r/x~%2Fabs%2Fr%2Fp%2Fx", 3),
    ];
    let fs = TagFS::new(&b("r"), &walk);
    let names = leaf_names(&fs, "/");
    assert_eq!(names.len(), 3);
    assert!(all_distinct(&names));
    assert_eq!(names[2], b("x~%2Fabs%2Fr%2Fp%2Fx"));
    // padded to one byte longer than the longest file name
    assert_eq!(names[0], b("x~~%2Fabs%2Fr%2Fp%2Fx"));
    assert_eq!(fs.lookup(&b("/x~%2Fabs%2Fr%2Fp%2Fx")), Node::File(2));
    assert_eq!(fs.lookup(&b("/x~~%2Fabs%2Fr%2Fp%2Fx")), Node::File(0));
}

#[test]
fn percent_and_tilde_are_escaped() {
    let walk = vec![
        Walked { path: b("r/a/f"), meta: Some(FileMeta { is_file: true, size: 1, absolute: b("/%~") }) },
        Walked { path: b("r/b/f"), meta: Some(FileMeta { is_file: true, size: 1, absolute: b("/z") }) },
    ];
    let fs = TagFS::new(&b("r"), &walk);
    let names = leaf_names(&fs, "/");
    assert_eq!(names, vec![b("f~%2F%25%7E"), b("f~%2Fz")]);
}

#[test]
fn one_canonical_path_is_indexed_once() {
    let walk = vec![
        Walked { path: b("r/a/f"), meta: Some(FileMeta { is_file: true, size: 1, absolute: b("/same") }) },
        Walked { path: b("r/b/g"), meta: Some(FileMeta { is_file: true, size: 1, absolute: b("/same") }) },
    ];
    let fs = TagFS::new(&b("r"), &walk);
    assert_eq!(fs.len(), 1);
    assert_eq!(fs.entry(0).name(), &b("f"));
    assert_eq!(fs.all_tags(), &vec![b("a")]);
}

#[test]
fn error_codes() {
    assert_eq!(errno(FsError::NotFound), Some(ENOENT));
    assert_eq!(errno(FsError::NotSupported), Some(ENOTSUP));
    assert_eq!(errno(FsError::Os(13)), Some(13));
    assert_eq!(errno(FsError::UnknownFileType(0)), None);
    assert_eq!((ENOENT, ENOTSUP), (2, 95));
}
