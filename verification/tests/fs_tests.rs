use aifs::fs::{
    begin_write, getattr_needs_tags, question_of, lookup_needs_tags, readdir_needs_tags, unique_paths, AiFS,
    AttrReply, DirEntry, FsError, NodeAttr, NodeKind, WriteStep,
};
use aifs::tags::{tag_hash, TagView};

fn dir(ino: u64) -> NodeAttr {
    NodeAttr { ino, size: 0, blocks: 0, kind: NodeKind::Directory, perm: 0o755, nlink: 2, uid: 1000, gid: 1000, rdev: 0, flags: 0, blksize: 512 }
}

fn file(ino: u64, size: u64, blocks: u64, perm: u16) -> NodeAttr {
    NodeAttr { ino, size, blocks, kind: NodeKind::RegularFile, perm, nlink: 1, uid: 1000, gid: 1000, rdev: 0, flags: 0, blksize: 512 }
}

fn link(ino: u64) -> NodeAttr {
    NodeAttr { ino, size: 0, blocks: 0, kind: NodeKind::Symlink, perm: 0o777, nlink: 1, uid: 1000, gid: 1000, rdev: 0, flags: 0, blksize: 512 }
}

fn records() -> Vec<(String, String)> {
    vec![
        ("C:\\proj\\net.rs".to_string(), "Networking, utils".to_string()),
        ("/proj/db.rs".to_string(), " database ,".to_string()),
        ("/proj/ui/view.md".to_string(), "UI,networking".to_string()),
        ("/proj/db.rs".to_string(), "storage".to_string()),
    ]
}

fn sample() -> AiFS {
    let mut fs = AiFS::new();
    fs.rebuild_tags(&records(), 5);
    fs
}

fn names(v: &[DirEntry]) -> Vec<String> {
    v.iter().map(|e| e.name.clone()).collect()
}

#[test]
fn fresh_state() {
    let fs = AiFS::new();
    assert_eq!(fs.readlink(5), Err(FsError::NotFound));
    let ans = fs.read(4, 0, 4096).unwrap();
    assert_eq!(String::from_utf8(ans).unwrap(), "请先在 ask 文件中输入问题...");
    assert!(fs.refresh_due(0) == false);
    assert!(fs.refresh_due(10_000_000_000));
    assert!(fs.refresh_due(-1));
}

#[test]
fn getattr_every_branch() {
    let fs = sample();
    let alen = "请先在 ask 文件中输入问题...".len() as u64;
    assert_eq!(fs.getattr(1), Ok(AttrReply { ttl_secs: 1, attr: dir(1) }));
    assert_eq!(fs.getattr(2), Ok(AttrReply { ttl_secs: 1, attr: file(2, 0, 0, 0o666) }));
    assert_eq!(fs.getattr(3), Ok(AttrReply { ttl_secs: 0, attr: dir(3) }));
    assert_eq!(fs.getattr(4), Ok(AttrReply { ttl_secs: 0, attr: file(4, alen, 0, 0o444) }));
    assert_eq!(fs.getattr(10), Ok(AttrReply { ttl_secs: 1, attr: dir(10) }));
    assert_eq!(fs.getattr(5), Err(FsError::NotFound));
    assert_eq!(fs.getattr(4321), Ok(AttrReply { ttl_secs: 1, attr: dir(4321) }));
    assert_eq!(fs.getattr(100007), Ok(AttrReply { ttl_secs: 1, attr: link(100007) }));
    assert_eq!(fs.getattr(0), Err(FsError::NotFound));
    assert_eq!(fs.getattr(50000), Err(FsError::NotFound));
}

#[test]
fn tag_inodes_in_range() {
    assert_eq!(tag_hash("ab"), 1000 + (97 + 98) % 9000);
    assert_eq!(tag_hash(""), 1000);
    let long = "z".repeat(1000);
    assert_eq!(tag_hash(&long), 1000 + (122 * 1000) % 9000);
    assert!((1000..=9999).contains(&tag_hash("networking")));
}

#[test]
fn rebuild_tag_view() {
    let v = TagView::rebuild(&records());
    let tags: Vec<String> = (0..v.tag_count()).map(|k| v.tag_name(k).clone()).collect();
    assert_eq!(tags, vec!["networking", "utils", "database", "ui", "storage"]);
    assert_eq!(v.files_of_tag(0), &vec!["C:/proj/net.rs".to_string(), "/proj/ui/view.md".to_string()]);
    assert_eq!(v.files_of_tag(2), &vec!["/proj/db.rs".to_string()]);
    let files: Vec<String> = (0..v.file_count()).map(|i| v.file_at(i).clone()).collect();
    assert_eq!(files, vec!["/proj/db.rs", "/proj/ui/view.md", "C:/proj/net.rs"]);
    assert_eq!(v.file_inode("/proj/ui/view.md"), Some(100001));
    assert_eq!(v.file_inode("/nowhere"), None);
    assert!(v.has_tag("utils"));
    assert!(!v.has_tag("Utils"));
    assert_eq!(v.tag_for_inode(tag_hash("ui")), Some(3));
    assert_eq!(v.tag_for_inode(1000), None);
}

#[test]
fn rebuild_repeats_a_path_once_per_mention() {
    let v = TagView::rebuild(&vec![
        ("a.rs".to_string(), "x, x".to_string()),
        ("a.rs".to_string(), "X".to_string()),
    ]);
    assert_eq!(v.tag_count(), 1);
    assert_eq!(v.files_of_tag(0).len(), 3);
    assert_eq!(v.file_count(), 1);
}

#[test]
fn lookup_in_root() {
    let fs = sample();
    let alen = "请先在 ask 文件中输入问题...".len() as u64;
    assert_eq!(fs.lookup(1, "ask"), Ok(AttrReply { ttl_secs: 1, attr: file(2, 0, 1, 0o666) }));
    assert_eq!(fs.lookup(1, "results"), Ok(AttrReply { ttl_secs: 0, attr: dir(3) }));
    assert_eq!(fs.lookup(1, "answer.txt"), Ok(AttrReply { ttl_secs: 0, attr: file(4, alen, 1, 0o444) }));
    assert_eq!(fs.lookup(1, "tags"), Ok(AttrReply { ttl_secs: 1, attr: dir(10) }));
    assert_eq!(fs.lookup(1, "other"), Err(FsError::NotFound));
    assert_eq!(fs.lookup(77, "ask"), Err(FsError::NotFound));
}

#[test]
fn lookup_results_and_tags() {
    let mut fs = sample();
    fs.finish_question(&vec!["a\\x.rs".to_string(), "b.rs".to_string()], "ok".to_string());
    assert_eq!(fs.lookup(3, "1"), Ok(AttrReply { ttl_secs: 0, attr: link(6) }));
    assert_eq!(fs.lookup(3, "+0"), Ok(AttrReply { ttl_secs: 0, attr: link(5) }));
    assert_eq!(fs.lookup(3, "2"), Err(FsError::NotFound));
    assert_eq!(fs.lookup(3, "one"), Err(FsError::NotFound));
    assert_eq!(fs.lookup(10, "ui"), Ok(AttrReply { ttl_secs: 1, attr: dir(tag_hash("ui")) }));
    assert_eq!(fs.lookup(10, "nope"), Err(FsError::NotFound));
    let net = tag_hash("networking");
    assert_eq!(fs.lookup(net, "view.md"), Ok(AttrReply { ttl_secs: 1, attr: link(100001) }));
    assert_eq!(fs.lookup(net, "db.rs"), Err(FsError::NotFound));
    assert_eq!(fs.lookup(1000, "view.md"), Err(FsError::NotFound));
}

#[test]
fn readdir_root_and_results() {
    let mut fs = sample();
    let root = fs.readdir(1, 0).unwrap();
    assert_eq!(names(&root), vec![".", "..", "ask", "results", "answer.txt", "tags"]);
    assert_eq!(root.iter().map(|e| (e.ino, e.offset)).collect::<Vec<_>>(), vec![(1, 0), (1, 1), (2, 2), (3, 3), (4, 4), (10, 5)]);
    assert!(fs.readdir(1, 6).unwrap().is_empty());
    fs.finish_question(&vec!["p".to_string(), "q".to_string()], String::new());
    let res = fs.readdir(3, 0).unwrap();
    assert_eq!(names(&res), vec![".", "..", "0", "1"]);
    assert_eq!(res.iter().map(|e| (e.ino, e.offset, e.kind)).collect::<Vec<_>>(), vec![(3, 0, NodeKind::Directory), (3, 1, NodeKind::Directory), (5, 2, NodeKind::Symlink), (6, 3, NodeKind::Symlink)]);
    assert_eq!(fs.readdir(2, 0).err(), Some(FsError::NotFound));
}

#[test]
fn readdir_tags() {
    let fs = sample();
    let tags = fs.readdir(10, 0).unwrap();
    assert_eq!(names(&tags), vec![".", "..", "networking", "utils", "database", "ui", "storage"]);
    assert_eq!(tags[0].ino, 10);
    assert_eq!(tags[1].ino, 1);
    assert_eq!(tags[2].ino, tag_hash("networking"));
    assert_eq!(tags[6].offset, 6);
    let net = fs.readdir(tag_hash("networking"), 0).unwrap();
    assert_eq!(names(&net), vec![".", "..", "net.rs", "view.md"]);
    assert_eq!(net.iter().map(|e| (e.ino, e.offset)).collect::<Vec<_>>(), vec![(tag_hash("networking"), 0), (10, 1), (100002, 2), (100001, 3)]);
    let none = fs.readdir(1000, 0).unwrap();
    assert_eq!(names(&none), vec![".", ".."]);
    assert!(fs.readdir(10, 1).unwrap().is_empty());
}

#[test]
fn readlink_targets() {
    let mut fs = sample();
    fs.finish_question(&vec!["x\\y.rs".to_string()], String::new());
    assert_eq!(fs.readlink(5), Ok("x/y.rs".to_string()));
    assert_eq!(fs.readlink(6), Err(FsError::NotFound));
    assert_eq!(fs.readlink(100000), Ok("/proj/db.rs".to_string()));
    assert_eq!(fs.readlink(100003), Err(FsError::NotFound));
    assert_eq!(fs.readlink(4), Err(FsError::NotFound));
    assert_eq!(fs.readlink(5000), Err(FsError::NotFound));
}

#[test]
fn read_answer_slices() {
    let mut fs = AiFS::new();
    fs.finish_question(&vec![], "hello world".to_string());
    assert_eq!(fs.read(4, 0, 5), Ok(b"hello".to_vec()));
    assert_eq!(fs.read(4, 6, 100), Ok(b"world".to_vec()));
    assert_eq!(fs.read(4, 11, 5), Ok(vec![]));
    assert_eq!(fs.read(4, 50, 5), Ok(vec![]));
    assert_eq!(fs.read(3, 0, 5), Err(FsError::NotFound));
}

#[test]
fn setattr_only_on_ask() {
    let fs = AiFS::new();
    assert_eq!(fs.setattr(2), Ok(AttrReply { ttl_secs: 1, attr: file(2, 0, 0, 0o666) }));
    assert_eq!(fs.setattr(4), Err(FsError::NotFound));
}

#[test]
fn writing_questions() {
    assert!(matches!(begin_write(4, b"hi"), WriteStep::Denied));
    assert!(matches!(begin_write(2, b"  \n"), WriteStep::Ignored));
    match begin_write(2, b"  what is here?\n") {
        WriteStep::Ask(q) => assert_eq!(q, "what is here?"),
        _ => panic!("expected a question"),
    }
    match begin_write(2, &[0x61, 0xff]) {
        WriteStep::Ask(q) => assert_eq!(q, "a\u{fffd}"),
        _ => panic!("expected a question"),
    }
}

#[test]
fn search_results_dedup_and_cap() {
    let raw: Vec<String> = vec!["a\\1", "a/1", "b"].into_iter().map(String::from).collect();
    assert_eq!(unique_paths(&raw), vec!["a/1", "b"]);
    let many: Vec<String> = (0..30).map(|i| format!("f{}", i % 15)).collect();
    let kept = unique_paths(&many);
    assert_eq!(kept.len(), 10);
    assert_eq!(kept, (0..10).map(|i| format!("f{}", i)).collect::<Vec<_>>());
}

#[test]
fn refresh_policy() {
    let mut fs = AiFS::new();
    fs.rebuild_tags(&vec![], 1_000);
    assert!(!fs.refresh_due(1_000));
    assert!(!fs.refresh_due(10_000_000_999));
    assert!(fs.refresh_due(10_000_001_000));
    assert!(fs.refresh_due(999));
    assert!(getattr_needs_tags(1000) && getattr_needs_tags(9999) && !getattr_needs_tags(10));
    assert!(lookup_needs_tags(10) && lookup_needs_tags(5000) && !lookup_needs_tags(3));
    assert!(readdir_needs_tags(10, 0) && !readdir_needs_tags(10, 2) && !readdir_needs_tags(1, 0));
}

#[test]
fn result_names_resolve() {
    let mut fs = AiFS::new();
    let raw: Vec<String> = (0..12).map(|i| format!("r{}", i)).collect();
    fs.finish_question(&raw, String::new());
    let entries = fs.readdir(3, 0).unwrap();
    for (i, e) in entries.iter().enumerate().skip(2) {
        assert_eq!(fs.lookup(3, &e.name), Ok(AttrReply { ttl_secs: 0, attr: link(e.ino) }));
        assert_eq!(fs.readlink(e.ino), Ok(format!("r{}", i - 2)));
        if e.ino != 10 {
            assert_eq!(fs.getattr(e.ino), Ok(AttrReply { ttl_secs: 0, attr: link(e.ino) }));
        }
    }
    // The sixth result has inode 10, which getattr answers as the tags directory.
    assert_eq!(fs.getattr(10), Ok(AttrReply { ttl_secs: 1, attr: dir(10) }));
}

#[test]
fn tag_entries_resolve() {
    let fs = sample();
    for e in fs.readdir(10, 0).unwrap().iter().skip(2) {
        assert_eq!(fs.lookup(10, &e.name), Ok(AttrReply { ttl_secs: 1, attr: dir(e.ino) }));
        assert!((1000..=9999).contains(&e.ino));
        assert_eq!(fs.getattr(e.ino), Ok(AttrReply { ttl_secs: 1, attr: dir(e.ino) }));
    }
}

#[test]
fn tag_files_link_back() {
    let fs = sample();
    let v = fs.tag_view_ref();
    for k in 0..v.tag_count() {
        for p in v.files_of_tag(k) {
            let ino = v.file_inode(p).unwrap();
            assert!(ino >= 100000);
            assert_eq!(fs.readlink(ino), Ok(p.clone()));
        }
    }
}

#[test]
fn read_in_pieces_matches_one_read() {
    let mut fs = AiFS::new();
    fs.finish_question(&vec![], "abcdefghij".to_string());
    for off in 0..12i64 {
        for a in 0..6u32 {
            for b in 0..6u32 {
                let mut two = fs.read(4, off, a).unwrap();
                two.extend(fs.read(4, off + a as i64, b).unwrap());
                assert_eq!(two, fs.read(4, off, a + b).unwrap());
            }
        }
    }
}

#[test]
fn questions_from_text() {
    assert!(matches!(question_of(" \t"), WriteStep::Ignored));
    match question_of("\u{3000}why?\n") {
        WriteStep::Ask(q) => assert_eq!(q, "why?"),
        _ => panic!("expected a question"),
    }
}

#[test]
fn adding_tags_by_hand() {
    let mut v = TagView::rebuild(&vec![("a.rs".to_string(), "x".to_string())]);
    v.add_tag(String::new(), "a.rs".to_string());
    assert_eq!(v.tag_count(), 1);
    v.add_tag("y".to_string(), "a.rs".to_string());
    v.add_tag("x".to_string(), "a.rs".to_string());
    assert_eq!(v.tag_count(), 2);
    assert_eq!(v.tag_name(1), "y");
    assert_eq!(v.files_of_tag(0), &vec!["a.rs".to_string(), "a.rs".to_string()]);
}

#[test]
fn tag_dir_entries_resolve() {
    let fs = sample();
    let ino = tag_hash("networking");
    let entries = fs.readdir(ino, 0).unwrap();
    assert_eq!(names(&entries), vec![".", "..", "net.rs", "view.md"]);
    for e in entries.iter().skip(2) {
        assert_eq!(fs.lookup(ino, &e.name), Ok(AttrReply { ttl_secs: 1, attr: link(e.ino) }));
        assert_eq!(fs.getattr(e.ino), Ok(AttrReply { ttl_secs: 1, attr: link(e.ino) }));
        let target = fs.readlink(e.ino).unwrap();
        assert!(target.ends_with(&format!("/{}", e.name)));
    }
}
