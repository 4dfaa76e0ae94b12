//! The file system's answers to requests. The root (inode 1) holds `ask`
//! (2), where a question is written; `results` (3), a directory of symlinks
//! numbered from 0 whose inodes start at 5; `answer.txt` (4); and `tags`
//! (10), with one directory per tag at inode 1000 to 9999 and, below each,
//! symlinks to the tag's files, whose inodes are 100000 plus the file's
//! position in the sorted list of known files.

use vstd::prelude::*;
use crate::tags::{TagView, file_inode_of, first_with_inode, record_paths, tag_hash, tag_inode, tag_map, tag_order};
use crate::text::{decode_utf8_lossy, forward_slashes, forward_slashes_of, trim, trimmed, utf8_lossy, decimal, decimal_string, parse_u64, parse_u64_text, same_text, utf8};
use crate::path::{file_name, file_name_of};

verus! {

/// The kind of a node.
#[derive(Clone, Copy, PartialEq, Eq, Structural, Debug)]
pub enum NodeKind {
    Directory,
    RegularFile,
    Symlink,
}

/// The attributes of a node, but its times, which are all the epoch.
#[derive(Clone, Copy, PartialEq, Eq, Structural, Debug)]
pub struct NodeAttr {
    pub ino: u64,
    pub size: u64,
    pub blocks: u64,
    pub kind: NodeKind,
    pub perm: u16,
    pub nlink: u32,
    pub uid: u32,
    pub gid: u32,
    pub rdev: u32,
    pub flags: u32,
    pub blksize: u32,
}

/// Why a request is refused.
#[derive(Clone, Copy, PartialEq, Eq, Structural, Debug)]
pub enum FsError {
    /// No such node (`ENOENT`).
    NotFound,
    /// The node cannot be written (`EACCES`).
    AccessDenied,
}

/// Attributes with how long, in seconds, the kernel may cache them.
#[derive(Clone, Copy, PartialEq, Eq, Structural, Debug)]
pub struct AttrReply {
    pub ttl_secs: u64,
    pub attr: NodeAttr,
}

/// The inode of the root directory.
pub const ROOT_INO: u64 = 1;
/// The inode of `ask`.
pub const ASK_INO: u64 = 2;
/// The inode of `results`.
pub const RESULTS_INO: u64 = 3;
/// The inode of `answer.txt`.
pub const ANSWER_INO: u64 = 4;
/// The inode of the first search-result link.
pub const FIRST_RESULT_INO: u64 = 5;
/// The inode of `tags`.
pub const TAGS_INO: u64 = 10;
/// The inode of the first known file.
pub const FIRST_FILE_INO: u64 = 100000;
/// The most search results kept.
pub const MAX_RESULTS: usize = 10;
/// How long the tag view stays fresh, in nanoseconds.
pub const REFRESH_NANOS: i128 = 10_000_000_000;

/// The attributes of a directory.
pub open spec fn dir_attr(ino: u64) -> NodeAttr {
    NodeAttr {
        ino,
        size: 0,
        blocks: 0,
        kind: NodeKind::Directory,
        perm: 0o755,
        nlink: 2,
        uid: 1000,
        gid: 1000,
        rdev: 0,
        flags: 0,
        blksize: 512,
    }
}

/// The attributes of a regular file.
pub open spec fn file_attr(ino: u64, size: u64, blocks: u64, perm: u16) -> NodeAttr {
    NodeAttr {
        ino,
        size,
        blocks,
        kind: NodeKind::RegularFile,
        perm,
        nlink: 1,
        uid: 1000,
        gid: 1000,
        rdev: 0,
        flags: 0,
        blksize: 512,
    }
}

/// The attributes of a symlink.
pub open spec fn link_attr(ino: u64) -> NodeAttr {
    NodeAttr {
        ino,
        size: 0,
        blocks: 0,
        kind: NodeKind::Symlink,
        perm: 0o777,
        nlink: 1,
        uid: 1000,
        gid: 1000,
        rdev: 0,
        flags: 0,
        blksize: 512,
    }
}

fn make_dir_attr(ino: u64) -> (a: NodeAttr)
    ensures
        a == dir_attr(ino),
{
    NodeAttr {
        ino,
        size: 0,
        blocks: 0,
        kind: NodeKind::Directory,
        perm: 0o755,
        nlink: 2,
        uid: 1000,
        gid: 1000,
        rdev: 0,
        flags: 0,
        blksize: 512,
    }
}

fn make_file_attr(ino: u64, size: u64, blocks: u64, perm: u16) -> (a: NodeAttr)
    ensures
        a == file_attr(ino, size, blocks, perm),
{
    NodeAttr {
        ino,
        size,
        blocks,
        kind: NodeKind::RegularFile,
        perm,
        nlink: 1,
        uid: 1000,
        gid: 1000,
        rdev: 0,
        flags: 0,
        blksize: 512,
    }
}

fn make_link_attr(ino: u64) -> (a: NodeAttr)
    ensures
        a == link_attr(ino),
{
    NodeAttr {
        ino,
        size: 0,
        blocks: 0,
        kind: NodeKind::Symlink,
        perm: 0o777,
        nlink: 1,
        uid: 1000,
        gid: 1000,
        rdev: 0,
        flags: 0,
        blksize: 512,
    }
}

/// `ino` is the inode of a tag directory.
pub open spec fn is_tag_dir(ino: u64) -> bool {
    1000 <= ino <= 9999
}

/// The answer to `getattr` for `ino`, given the number of search results
/// and the length in bytes of the answer.
pub open spec fn getattr_reply(ino: u64, results: nat, answer_len: nat) -> Result<AttrReply, FsError> {
    if ino == ROOT_INO {
        Ok(AttrReply { ttl_secs: 1, attr: dir_attr(ino) })
    } else if ino == ASK_INO {
        Ok(AttrReply { ttl_secs: 1, attr: file_attr(ino, 0, 0, 0o666) })
    } else if ino == RESULTS_INO {
        Ok(AttrReply { ttl_secs: 0, attr: dir_attr(ino) })
    } else if ino == ANSWER_INO {
        Ok(AttrReply { ttl_secs: 0, attr: file_attr(ino, answer_len as u64, 0, 0o444) })
    } else if ino == TAGS_INO {
        Ok(AttrReply { ttl_secs: 1, attr: dir_attr(ino) })
    } else if 5 <= ino <= 999 {
        if ino - 5 < results {
            Ok(AttrReply { ttl_secs: 0, attr: link_attr(ino) })
        } else {
            Err(FsError::NotFound)
        }
    } else if is_tag_dir(ino) {
        Ok(AttrReply { ttl_secs: 1, attr: dir_attr(ino) })
    } else if ino >= FIRST_FILE_INO {
        Ok(AttrReply { ttl_secs: 1, attr: link_attr(ino) })
    } else {
        Err(FsError::NotFound)
    }
}

/// The target of the symlink `ino`: search result `ino - 5` for inodes 5
/// to 999, known file `ino - 100000` from inode 100000 on.
pub open spec fn readlink_reply(ino: u64, results: Seq<Seq<char>>, files: Seq<Seq<char>>) -> Result<
    Seq<char>,
    FsError,
> {
    if 5 <= ino < 1000 {
        if ino - 5 < results.len() {
            Ok(results[ino - 5])
        } else {
            Err(FsError::NotFound)
        }
    } else if ino >= FIRST_FILE_INO {
        if ino - FIRST_FILE_INO < files.len() {
            Ok(files[ino - FIRST_FILE_INO])
        } else {
            Err(FsError::NotFound)
        }
    } else {
        Err(FsError::NotFound)
    }
}

/// The bytes read from `ino` at `offset`, at most `size`: only
/// `answer.txt` can be read, and past its end there is nothing.
pub open spec fn read_reply(ino: u64, offset: i64, size: u32, bytes: Seq<u8>) -> Result<
    Seq<u8>,
    FsError,
> {
    if ino != ANSWER_INO {
        Err(FsError::NotFound)
    } else if offset >= bytes.len() {
        Ok(Seq::empty())
    } else {
        let end = if bytes.len() < offset + size {
            bytes.len() as int
        } else {
            offset + size
        };
        Ok(bytes.subrange(offset as int, end))
    }
}

/// The state behind the file system: the last search results, the last
/// answer, the tag view and when it was last rebuilt.
pub struct AiFS {
    results: Vec<String>,
    answer: String,
    view: TagView,
    last_refresh: i128,
}

impl AiFS {
    /// The current search results, in order.
    pub closed spec fn results(&self) -> Seq<Seq<char>> {
        self.results.deep_view()
    }

    /// The current answer.
    pub closed spec fn answer(&self) -> Seq<char> {
        self.answer@
    }

    /// The tag view.
    pub closed spec fn tag_view(&self) -> TagView {
        self.view
    }

    /// When the tag view was last rebuilt, in nanoseconds since the epoch.
    pub closed spec fn last_refresh(&self) -> i128 {
        self.last_refresh
    }

    /// At most ten results, and a well-formed tag view.
    pub open spec fn wf(&self) -> bool {
        &&& self.results().len() <= MAX_RESULTS
        &&& self.tag_view().wf()
    }

    /// No results, the prompt to ask a question as the answer, an empty tag
    /// view last rebuilt at the epoch.
    pub fn new() -> (fs: Self)
        ensures
            fs.wf(),
            fs.results() == Seq::<Seq<char>>::empty(),
            fs.answer() == "请先在 ask 文件中输入问题..."@,
            fs.tag_view().tags() == Seq::<Seq<char>>::empty(),
            fs.tag_view().files() == Seq::<Seq<char>>::empty(),
            fs.last_refresh() == 0,
    {
        let fs = AiFS {
            results: Vec::new(),
            answer: "请先在 ask 文件中输入问题...".to_owned(),
            view: TagView::new(),
            last_refresh: 0,
        };
        assert(fs.results() =~= Seq::<Seq<char>>::empty());
        fs
    }

    /// Whether the tag view is due for a rebuild at `now` (nanoseconds since
    /// the epoch): when `now` is earlier than the last rebuild, or ten
    /// seconds or more have passed since.
    pub fn refresh_due(&self, now: i128) -> (due: bool)
        ensures
            due == (now < self.last_refresh() || now - self.last_refresh() >= REFRESH_NANOS),
    {
        if now < self.last_refresh {
            true
        } else {
            match now.checked_sub(self.last_refresh) {
                Some(d) => d >= REFRESH_NANOS,
                None => true,
            }
        }
    }

    /// Rebuilds the tag view from the store's (path, tags) records, at time
    /// `now`.
    pub fn rebuild_tags(&mut self, records: &Vec<(String, String)>, now: i128)
        requires
            old(self).wf(),
            records.len() <= u64::MAX - 100000,
        ensures
            final(self).wf(),
            final(self).tag_view().map() == tag_map(records.deep_view()),
            final(self).tag_view().tags() == tag_order(records.deep_view()),
            forall|x: Seq<char>| #[trigger] final(self).tag_view().files().contains(x) <==> record_paths(records.deep_view()).contains(x),
            final(self).last_refresh() == now,
            final(self).results() == old(self).results(),
            final(self).answer() == old(self).answer(),
    {
        self.view = TagView::rebuild(records);
        self.last_refresh = now;
    }

    /// The tag view, for reading.
    pub fn tag_view_ref(&self) -> (v: &TagView)
        ensures
            *v == self.tag_view(),
    {
        &self.view
    }

    /// The attributes of `ino`.
    pub fn getattr(&self, ino: u64) -> (r: Result<AttrReply, FsError>)
        requires
            self.wf(),
        ensures
            r == getattr_reply(ino, self.results().len(), utf8(self.answer()).len()),
    {
        assert(self.results().len() == self.results@.len());
        if ino == ROOT_INO {
            Ok(AttrReply { ttl_secs: 1, attr: make_dir_attr(ino) })
        } else if ino == ASK_INO {
            Ok(AttrReply { ttl_secs: 1, attr: make_file_attr(ino, 0, 0, 0o666) })
        } else if ino == RESULTS_INO {
            Ok(AttrReply { ttl_secs: 0, attr: make_dir_attr(ino) })
        } else if ino == ANSWER_INO {
            let text = self.answer.as_str();
            let n = text.as_bytes().len();
            assert(text@ == self.answer());
            assert(n == utf8(self.answer()).len());
            let len = n as u64;
            Ok(AttrReply { ttl_secs: 0, attr: make_file_attr(ino, len, 0, 0o444) })
        } else if ino == TAGS_INO {
            Ok(AttrReply { ttl_secs: 1, attr: make_dir_attr(ino) })
        } else if 5 <= ino && ino <= 999 {
            if ino - 5 < self.results.len() as u64 {
                Ok(AttrReply { ttl_secs: 0, attr: make_link_attr(ino) })
            } else {
                Err(FsError::NotFound)
            }
        } else if 1000 <= ino && ino <= 9999 {
            Ok(AttrReply { ttl_secs: 1, attr: make_dir_attr(ino) })
        } else if ino >= FIRST_FILE_INO {
            Ok(AttrReply { ttl_secs: 1, attr: make_link_attr(ino) })
        } else {
            Err(FsError::NotFound)
        }
    }

    /// Setting attributes: only `ask` accepts it, and keeps its attributes.
    pub fn setattr(&self, ino: u64) -> (r: Result<AttrReply, FsError>)
        ensures
            ino == ASK_INO ==> r == Ok::<AttrReply, FsError>(
                AttrReply { ttl_secs: 1, attr: file_attr(ASK_INO, 0, 0, 0o666) },
            ),
            ino != ASK_INO ==> r == Err::<AttrReply, FsError>(FsError::NotFound),
    {
        if ino == ASK_INO {
            Ok(AttrReply { ttl_secs: 1, attr: make_file_attr(ASK_INO, 0, 0, 0o666) })
        } else {
            Err(FsError::NotFound)
        }
    }

    /// The target of the symlink `ino`: a search result (inodes 5 to 999)
    /// or a known file (inode 100000 and up).
    pub fn readlink(&self, ino: u64) -> (r: Result<String, FsError>)
        requires
            self.wf(),
        ensures
            match (r, readlink_reply(ino, self.results(), self.tag_view().files())) {
                (Ok(p), Ok(q)) => p@ == q,
                (Err(x), Err(y)) => x == y,
                _ => false,
            },
    {
        if ino >= 5 && ino < 1000 {
            let index = ino - 5;
            if index < self.results.len() as u64 {
                let p = self.results[index as usize].clone();
                assert(self.results()[index as int] == self.results@[index as int]@);
                Ok(p)
            } else {
                Err(FsError::NotFound)
            }
        } else if ino >= FIRST_FILE_INO {
            let index = ino - FIRST_FILE_INO;
            if index < self.view.file_count() as u64 {
                Ok(self.view.file_at(index as usize).clone())
            } else {
                Err(FsError::NotFound)
            }
        } else {
            Err(FsError::NotFound)
        }
    }

    /// Reading `answer.txt`: the bytes of the answer from `offset`, at most
    /// `size` of them; nothing at or past the end.
    pub fn read(&self, ino: u64, offset: i64, size: u32) -> (r: Result<Vec<u8>, FsError>)
        requires
            ino == ANSWER_INO ==> offset >= 0,
        ensures
            match (r, read_reply(ino, offset, size, utf8(self.answer()))) {
                (Ok(b), Ok(c)) => b@ == c,
                (Err(x), Err(y)) => x == y,
                _ => false,
            },
    {
        if ino == ANSWER_INO {
            let bytes = self.answer.as_str().as_bytes();
            assert(bytes@ == utf8(self.answer()));
            if offset as u64 >= bytes.len() as u64 {
                let none: Vec<u8> = Vec::new();
                assert(none@ =~= Seq::<u8>::empty());
                Ok(none)
            } else {
                let start = offset as usize;
                let end = if size as usize > bytes.len() - start {
                    bytes.len()
                } else {
                    start + size as usize
                };
                let part = vstd::slice::slice_subrange(bytes, start, end);
                Ok(vstd::slice::slice_to_vec(part))
            }
        } else {
            Err(FsError::NotFound)
        }
    }
}


/// One directory entry: the inode, the offset of the next entry, the kind
/// and the name.
#[derive(Debug)]
pub struct DirEntry {
    pub ino: u64,
    pub offset: i64,
    pub kind: NodeKind,
    pub name: String,
}

impl View for DirEntry {
    type V = (u64, i64, NodeKind, Seq<char>);

    open spec fn view(&self) -> (u64, i64, NodeKind, Seq<char>) {
        (self.ino, self.offset, self.kind, self.name@)
    }
}

/// The views of a list of entries.
pub open spec fn entries_view(v: Seq<DirEntry>) -> Seq<(u64, i64, NodeKind, Seq<char>)> {
    v.map_values(|e: DirEntry| e@)
}

/// The offset given to the entry at position `i` after `.` and `..`.
pub open spec fn entry_offset(i: int) -> i64 {
    vstd::wrapping::i64_specs::wrapping_add(i as i64, 2)
}

/// The entries of the root directory.
pub open spec fn root_entries() -> Seq<(u64, i64, NodeKind, Seq<char>)> {
    seq![
        (1u64, 0i64, NodeKind::Directory, "."@),
        (1u64, 1i64, NodeKind::Directory, ".."@),
        (2u64, 2i64, NodeKind::RegularFile, "ask"@),
        (3u64, 3i64, NodeKind::Directory, "results"@),
        (4u64, 4i64, NodeKind::RegularFile, "answer.txt"@),
        (10u64, 5i64, NodeKind::Directory, "tags"@),
    ]
}

/// `.` (inode `here`) and `..` (inode `up`).
pub open spec fn dot_entries(here: u64, up: u64) -> Seq<(u64, i64, NodeKind, Seq<char>)> {
    seq![(here, 0i64, NodeKind::Directory, "."@), (up, 1i64, NodeKind::Directory, ".."@)]
}

/// One link per search result, named by its position.
pub open spec fn result_entries(n: nat) -> Seq<(u64, i64, NodeKind, Seq<char>)> {
    Seq::new(n, |i: int| ((5 + i) as u64, entry_offset(i), NodeKind::Symlink, decimal(i as nat)))
}

/// One directory per tag.
pub open spec fn tag_entries(tags: Seq<Seq<char>>) -> Seq<(u64, i64, NodeKind, Seq<char>)> {
    Seq::new(tags.len(), |k: int| (tag_inode(tags[k]), entry_offset(k), NodeKind::Directory, tags[k]))
}

/// One link per file of a tag that has a file name and an inode, named by
/// its file name, with the offset of its position in the tag's list.
pub open spec fn tag_dir_entries(files: Seq<Seq<char>>, fl: Seq<Seq<char>>) -> Seq<
    (u64, i64, NodeKind, Seq<char>),
>
    decreases fl.len(),
{
    if fl.len() == 0 {
        Seq::empty()
    } else {
        let rest = tag_dir_entries(files, fl.drop_last());
        match (file_name(fl.last()), file_inode_of(files, fl.last())) {
            (Some(n), Some(ino)) => rest.push(
                (ino, entry_offset(fl.len() - 1), NodeKind::Symlink, n),
            ),
            _ => rest,
        }
    }
}

/// The files of the first tag whose directory inode is `ino`, if any.
pub open spec fn files_under(v: TagView, ino: u64) -> Seq<Seq<char>> {
    let k = first_with_inode(v.tags(), ino);
    if k < 0 {
        Seq::empty()
    } else {
        v.tag_files()[k]
    }
}

/// The answer to `readdir` of `ino` from `offset`.
pub open spec fn readdir_reply(ino: u64, offset: i64, results: nat, v: TagView) -> Result<
    Seq<(u64, i64, NodeKind, Seq<char>)>,
    FsError,
> {
    if ino == ROOT_INO {
        Ok(if offset == 0 { root_entries() } else { Seq::empty() })
    } else if ino == RESULTS_INO {
        Ok(if offset == 0 { dot_entries(3, 3) + result_entries(results) } else { Seq::empty() })
    } else if ino == TAGS_INO {
        Ok(if offset == 0 { dot_entries(10, 1) + tag_entries(v.tags()) } else { Seq::empty() })
    } else if is_tag_dir(ino) {
        Ok(
            if offset == 0 {
                dot_entries(ino, 10) + tag_dir_entries(v.files(), files_under(v, ino))
            } else {
                Seq::empty()
            },
        )
    } else {
        Err(FsError::NotFound)
    }
}

/// The first position in `fl` whose file name is `name`, or -1.
pub open spec fn first_named(fl: Seq<Seq<char>>, name: Seq<char>) -> int
    decreases fl.len(),
{
    if fl.len() == 0 {
        -1
    } else {
        let m = first_named(fl.drop_last(), name);
        if m >= 0 {
            m
        } else if file_name(fl.last()) == Some(name) {
            fl.len() - 1
        } else {
            -1
        }
    }
}

/// `first_named` is the first position whose file name is `name`, or -1
/// where there is none.
pub proof fn lemma_first_named(fl: Seq<Seq<char>>, name: Seq<char>)
    ensures
        -1 <= first_named(fl, name) < fl.len(),
        first_named(fl, name) >= 0 ==> file_name(fl[first_named(fl, name)]) == Some(name),
        forall|j: int|
            0 <= j < fl.len() && (first_named(fl, name) < 0 || j < first_named(fl, name))
                ==> file_name(#[trigger] fl[j]) != Some(name),
    decreases fl.len(),
{
    if fl.len() > 0 {
        lemma_first_named(fl.drop_last(), name);
        assert forall|j: int|
            0 <= j < fl.len() && (first_named(fl, name) < 0 || j < first_named(fl, name))
                implies file_name(#[trigger] fl[j]) != Some(name) by {
            if j < fl.len() - 1 {
                assert(fl[j] == fl.drop_last()[j]);
            }
        }
    }
}

/// The answer to looking up `name` in the tag directory `parent`.
pub open spec fn tag_dir_lookup(v: TagView, parent: u64, name: Seq<char>) -> Result<AttrReply, FsError> {
    let k = first_with_inode(v.tags(), parent);
    if k < 0 {
        Err(FsError::NotFound)
    } else {
        let fl = v.tag_files()[k];
        let m = first_named(fl, name);
        if m < 0 {
            Err(FsError::NotFound)
        } else {
            match file_inode_of(v.files(), fl[m]) {
                Some(ino) => Ok(AttrReply { ttl_secs: 1, attr: link_attr(ino) }),
                None => Err(FsError::NotFound),
            }
        }
    }
}

/// The answer to looking up `name` in the directory `parent`.
pub open spec fn lookup_reply(
    parent: u64,
    name: Seq<char>,
    results: nat,
    answer_len: nat,
    v: TagView,
) -> Result<AttrReply, FsError> {
    if parent == ROOT_INO {
        if name == "ask"@ {
            Ok(AttrReply { ttl_secs: 1, attr: file_attr(ASK_INO, 0, 1, 0o666) })
        } else if name == "results"@ {
            Ok(AttrReply { ttl_secs: 0, attr: dir_attr(RESULTS_INO) })
        } else if name == "answer.txt"@ {
            Ok(AttrReply { ttl_secs: 0, attr: file_attr(ANSWER_INO, answer_len as u64, 1, 0o444) })
        } else if name == "tags"@ {
            Ok(AttrReply { ttl_secs: 1, attr: dir_attr(TAGS_INO) })
        } else {
            Err(FsError::NotFound)
        }
    } else if parent == RESULTS_INO {
        match parse_u64_text(name) {
            Some(idx) => if idx < results {
                Ok(AttrReply { ttl_secs: 0, attr: link_attr((idx + 5) as u64) })
            } else {
                Err(FsError::NotFound)
            },
            None => Err(FsError::NotFound),
        }
    } else if parent == TAGS_INO {
        if v.tags().contains(name) {
            Ok(AttrReply { ttl_secs: 1, attr: dir_attr(tag_inode(name)) })
        } else {
            Err(FsError::NotFound)
        }
    } else if is_tag_dir(parent) {
        tag_dir_lookup(v, parent, name)
    } else {
        Err(FsError::NotFound)
    }
}

/// Whether `getattr` of `ino` brings the tag view up to date first.
pub open spec fn getattr_uses_tags(ino: u64) -> bool {
    is_tag_dir(ino)
}

/// Whether `lookup` in `parent` brings the tag view up to date first.
pub open spec fn lookup_uses_tags(parent: u64) -> bool {
    parent == TAGS_INO || is_tag_dir(parent)
}

/// Whether `readdir` of `ino` from `offset` brings the tag view up to date
/// first.
pub open spec fn readdir_uses_tags(ino: u64, offset: i64) -> bool {
    offset == 0 && (ino == TAGS_INO || is_tag_dir(ino))
}

/// Whether `getattr` of `ino` reads the tag view.
pub fn getattr_needs_tags(ino: u64) -> (b: bool)
    ensures
        b == getattr_uses_tags(ino),
{
    1000 <= ino && ino <= 9999
}

/// Whether `lookup` in `parent` reads the tag view.
pub fn lookup_needs_tags(parent: u64) -> (b: bool)
    ensures
        b == lookup_uses_tags(parent),
{
    parent == TAGS_INO || (1000 <= parent && parent <= 9999)
}

/// Whether `readdir` of `ino` from `offset` reads the tag view.
pub fn readdir_needs_tags(ino: u64, offset: i64) -> (b: bool)
    ensures
        b == readdir_uses_tags(ino, offset),
{
    offset == 0 && (ino == TAGS_INO || (1000 <= ino && ino <= 9999))
}

fn push_entry(v: &mut Vec<DirEntry>, ino: u64, offset: i64, kind: NodeKind, name: String)
    ensures
        entries_view(final(v)@) == entries_view(old(v)@).push((ino, offset, kind, name@)),
{
    let e = DirEntry { ino, offset, kind, name };
    v.push(e);
    assert(entries_view(v@) =~= entries_view(old(v)@).push((ino, offset, kind, e.name@)));
}

fn dot_pair(here: u64, up: u64) -> (v: Vec<DirEntry>)
    ensures
        entries_view(v@) == dot_entries(here, up),
{
    let mut v: Vec<DirEntry> = Vec::new();
    push_entry(&mut v, here, 0, NodeKind::Directory, ".".to_owned());
    push_entry(&mut v, up, 1, NodeKind::Directory, "..".to_owned());
    assert(entries_view(v@) =~= dot_entries(here, up));
    v
}


impl AiFS {
    /// Looks up `name` in the directory `parent`.
    pub fn lookup(&self, parent: u64, name: &str) -> (r: Result<AttrReply, FsError>)
        requires
            self.wf(),
        ensures
            r == lookup_reply(
                parent,
                name@,
                self.results().len(),
                utf8(self.answer()).len(),
                self.tag_view(),
            ),
    {
        assert(self.results().len() == self.results@.len());
        if parent == ROOT_INO {
            if same_text(name, "ask") {
                Ok(AttrReply { ttl_secs: 1, attr: make_file_attr(ASK_INO, 0, 1, 0o666) })
            } else if same_text(name, "results") {
                Ok(AttrReply { ttl_secs: 0, attr: make_dir_attr(RESULTS_INO) })
            } else if same_text(name, "answer.txt") {
                let n = self.answer.as_str().as_bytes().len();
                let len = n as u64;
                Ok(AttrReply { ttl_secs: 0, attr: make_file_attr(ANSWER_INO, len, 1, 0o444) })
            } else if same_text(name, "tags") {
                Ok(AttrReply { ttl_secs: 1, attr: make_dir_attr(TAGS_INO) })
            } else {
                Err(FsError::NotFound)
            }
        } else if parent == RESULTS_INO {
            match parse_u64(name) {
                Some(idx) => {
                    if idx < self.results.len() as u64 {
                        Ok(AttrReply { ttl_secs: 0, attr: make_link_attr(idx + 5) })
                    } else {
                        Err(FsError::NotFound)
                    }
                },
                None => Err(FsError::NotFound),
            }
        } else if parent == TAGS_INO {
            if self.view.has_tag(name) {
                Ok(AttrReply { ttl_secs: 1, attr: make_dir_attr(tag_hash(name)) })
            } else {
                Err(FsError::NotFound)
            }
        } else if 1000 <= parent && parent <= 9999 {
            self.lookup_in_tag(parent, name)
        } else {
            Err(FsError::NotFound)
        }
    }

    fn lookup_in_tag(&self, parent: u64, name: &str) -> (r: Result<AttrReply, FsError>)
        requires
            self.wf(),
        ensures
            r == tag_dir_lookup(self.tag_view(), parent, name@),
    {
        let ghost v = self.tag_view();
        match self.view.tag_for_inode(parent) {
            None => Err(FsError::NotFound),
            Some(k) => {
                let fl = self.view.files_of_tag(k);
                let ghost flv = fl.deep_view();
                proof {
                    lemma_first_named(flv, name@);
                }
                for m in 0..fl.len()
                    invariant
                        self.wf(),
                        k as int == first_with_inode(self.tag_view().tags(), parent),
                        k < self.tag_view().tags().len(),
                        flv == self.tag_view().tag_files()[k as int],
                        flv == fl.deep_view(),
                        forall|j: int| 0 <= j < m ==> file_name(#[trigger] flv[j]) != Some(name@),
                        -1 <= first_named(flv, name@) < flv.len(),
                        first_named(flv, name@) >= 0 ==> file_name(flv[first_named(flv, name@)]) == Some(name@),
                        forall|j: int|
                            0 <= j < flv.len() && (first_named(flv, name@) < 0 || j < first_named(flv, name@))
                                ==> file_name(#[trigger] flv[j]) != Some(name@),
                {
                    assert(flv[m as int] == fl@[m as int]@);
                    let found = match file_name_of(fl[m].as_str()) {
                        Some(f) => same_text(f.as_str(), name),
                        None => false,
                    };
                    if found {
                        assert(file_name(flv[m as int]) == Some(name@));
                        return match self.view.file_inode(fl[m].as_str()) {
                            Some(ino) => Ok(AttrReply { ttl_secs: 1, attr: make_link_attr(ino) }),
                            None => Err(FsError::NotFound),
                        };
                    }
                }
                Err(FsError::NotFound)
            },
        }
    }
}


impl AiFS {
    /// The entries of the directory `ino` from `offset`: everything at
    /// offset 0, nothing after.
    pub fn readdir(&self, ino: u64, offset: i64) -> (r: Result<Vec<DirEntry>, FsError>)
        requires
            self.wf(),
        ensures
            match (r, readdir_reply(ino, offset, self.results().len(), self.tag_view())) {
                (Ok(v), Ok(e)) => entries_view(v@) == e,
                (Err(x), Err(y)) => x == y,
                _ => false,
            },
    {
        assert(self.results().len() == self.results@.len());
        let mut out: Vec<DirEntry> = Vec::new();
        assert(entries_view(out@) =~= Seq::<(u64, i64, NodeKind, Seq<char>)>::empty());
        if ino == ROOT_INO {
            if offset == 0 {
                push_entry(&mut out, 1, 0, NodeKind::Directory, ".".to_owned());
                push_entry(&mut out, 1, 1, NodeKind::Directory, "..".to_owned());
                push_entry(&mut out, 2, 2, NodeKind::RegularFile, "ask".to_owned());
                push_entry(&mut out, 3, 3, NodeKind::Directory, "results".to_owned());
                push_entry(&mut out, 4, 4, NodeKind::RegularFile, "answer.txt".to_owned());
                push_entry(&mut out, 10, 5, NodeKind::Directory, "tags".to_owned());
                assert(entries_view(out@) =~= root_entries());
            }
            Ok(out)
        } else if ino == RESULTS_INO {
            if offset == 0 {
                out = dot_pair(3, 3);
                let ghost base = entries_view(out@);
                for i in 0..self.results.len()
                    invariant
                        self.wf(),
                        self.results().len() == self.results@.len(),
                        entries_view(out@) == base + result_entries(i as nat),
                {
                    let name = decimal_string(i as u64);
                    push_entry(&mut out, 5 + i as u64, (i as i64).wrapping_add(2), NodeKind::Symlink, name);
                    assert(result_entries(i as nat).push(
                        ((5 + i) as u64, entry_offset(i as int), NodeKind::Symlink, decimal(i as nat)),
                    ) =~= result_entries((i + 1) as nat));
                    assert(entries_view(out@) =~= base + result_entries((i + 1) as nat));
                }
            }
            Ok(out)
        } else if ino == TAGS_INO {
            if offset == 0 {
                out = dot_pair(10, 1);
                let ghost base = entries_view(out@);
                let ghost tags = self.tag_view().tags();
                let n = self.view.tag_count();
                for k in 0..n
                    invariant
                        n == tags.len(),
                        tags == self.tag_view().tags(),
                        entries_view(out@) == base + tag_entries(tags.take(k as int)),
                        k <= tags.len(),
                {
                    let t = self.view.tag_name(k);
                    let tag_ino = tag_hash(t.as_str());
                    push_entry(&mut out, tag_ino, (k as i64).wrapping_add(2), NodeKind::Directory, t.clone());
                    assert(tag_entries(tags.take(k as int)).push(
                        (tag_inode(tags[k as int]), entry_offset(k as int), NodeKind::Directory, tags[k as int]),
                    ) =~= tag_entries(tags.take(k + 1)));
                    assert(entries_view(out@) =~= base + tag_entries(tags.take(k + 1)));
                }
                assert(tags.take(tags.len() as int) =~= tags);
            }
            Ok(out)
        } else if 1000 <= ino && ino <= 9999 {
            if offset == 0 {
                out = dot_pair(ino, 10);
                let ghost base = entries_view(out@);
                let ghost v = self.tag_view();
                match self.view.tag_for_inode(ino) {
                    None => {
                        assert(files_under(v, ino) =~= Seq::<Seq<char>>::empty());
                        assert(entries_view(out@) =~= base + tag_dir_entries(v.files(), files_under(v, ino)));
                    },
                    Some(k) => {
                        let fl = self.view.files_of_tag(k);
                        let ghost flv = fl.deep_view();
                        assert(flv.take(0) =~= Seq::<Seq<char>>::empty());
                        for i in 0..fl.len()
                            invariant
                                self.wf(),
                                v == self.tag_view(),
                                flv == fl.deep_view(),
                                entries_view(out@) == base + tag_dir_entries(v.files(), flv.take(i as int)),
                        {
                            let ghost pre = flv.take(i as int);
                            let ghost next = flv.take(i + 1);
                            assert(next.drop_last() =~= pre);
                            assert(next.last() == fl@[i as int]@);
                            let path = &fl[i];
                            match file_name_of(path.as_str()) {
                                Some(fname) => {
                                    match self.view.file_inode(path.as_str()) {
                                        Some(file_ino) => {
                                            push_entry(&mut out, file_ino, (i as i64).wrapping_add(2), NodeKind::Symlink, fname);
                                            assert(entries_view(out@) =~= base + tag_dir_entries(v.files(), next));
                                        },
                                        None => {
                                            assert(entries_view(out@) =~= base + tag_dir_entries(v.files(), next));
                                        },
                                    }
                                },
                                None => {
                                    assert(entries_view(out@) =~= base + tag_dir_entries(v.files(), next));
                                },
                            }
                        }
                        assert(flv.take(flv.len() as int) =~= flv);
                    },
                }
            }
            Ok(out)
        } else {
            Err(FsError::NotFound)
        }
    }
}


/// What a write to a node leads to.
#[derive(Debug)]
pub enum WriteStep {
    /// Only `ask` can be written (`EACCES`).
    Denied,
    /// The written text is blank: nothing to ask.
    Ignored,
    /// The question to search for and answer.
    Ask(String),
}

/// The texts of `s` with repeats dropped, each kept where it first occurs.
pub open spec fn distinct_in_order(s: Seq<Seq<char>>) -> Seq<Seq<char>>
    decreases s.len(),
{
    if s.len() == 0 {
        Seq::empty()
    } else {
        let d = distinct_in_order(s.drop_last());
        if d.contains(s.last()) {
            d
        } else {
            d.push(s.last())
        }
    }
}

/// The search results kept for the raw hits `raw`: forward slashes, no
/// repeats, first ten.
pub open spec fn search_results(raw: Seq<Seq<char>>) -> Seq<Seq<char>> {
    let d = distinct_in_order(raw.map_values(|p: Seq<char>| forward_slashes(p)));
    if d.len() <= MAX_RESULTS {
        d
    } else {
        d.take(MAX_RESULTS as int)
    }
}

proof fn lemma_distinct_prefix(s: Seq<Seq<char>>, i: int)
    requires
        0 <= i <= s.len(),
    ensures
        distinct_in_order(s.take(i)).len() <= distinct_in_order(s).len(),
        distinct_in_order(s).take(distinct_in_order(s.take(i)).len() as int) == distinct_in_order(
            s.take(i),
        ),
    decreases s.len(),
{
    if i == s.len() {
        assert(s.take(i) =~= s);
        assert(distinct_in_order(s).take(distinct_in_order(s).len() as int) =~= distinct_in_order(s));
    } else {
        assert(s.drop_last().take(i) =~= s.take(i));
        lemma_distinct_prefix(s.drop_last(), i);
        let a = distinct_in_order(s.take(i));
        let b = distinct_in_order(s.drop_last());
        let c = distinct_in_order(s);
        assert(c.take(a.len() as int) =~= b.take(a.len() as int));
    }
}

/// The search results kept for the raw hits `raw`.
pub fn unique_paths(raw: &Vec<String>) -> (out: Vec<String>)
    ensures
        out.deep_view() == search_results(raw.deep_view()),
{
    let ghost norm = raw.deep_view().map_values(|p: Seq<char>| forward_slashes(p));
    let mut out: Vec<String> = Vec::new();
    let mut i: usize = 0;
    assert(norm.take(0) =~= Seq::<Seq<char>>::empty());
    assert(out.deep_view() =~= Seq::<Seq<char>>::empty());
    while i < raw.len()
        invariant
            i <= raw.len(),
            norm == raw.deep_view().map_values(|p: Seq<char>| forward_slashes(p)),
            out.deep_view() == distinct_in_order(norm.take(i as int)),
            out.len() < MAX_RESULTS,
        decreases raw.len() - i,
    {
        let p = forward_slashes_of(raw[i].as_str());
        let ghost d = out.deep_view();
        assert(norm.take(i + 1).drop_last() =~= norm.take(i as int));
        assert(norm.take(i + 1).last() == p@);
        let mut seen = false;
        for j in 0..out.len()
            invariant
                d == out.deep_view(),
                !seen ==> forall|q: int| 0 <= q < j ==> d[q] != p@,
                seen ==> d.contains(p@),
        {
            if out[j] == p {
                assert(d[j as int] == p@);
                seen = true;
            }
        }
        if !seen {
            let ghost old_out = out@;
            let ghost pv = p@;
            out.push(p);
            assert(out.deep_view() =~= d.push(pv)) by {
                assert forall|q: int| 0 <= q < d.len() implies #[trigger] out.deep_view()[q] == d[q] by {
                    assert(out@[q] == old_out[q]);
                }
            }
        }
        i = i + 1;
        if out.len() >= MAX_RESULTS {
            proof {
                lemma_distinct_prefix(norm, i as int);
            }
            assert(distinct_in_order(norm).take(MAX_RESULTS as int) == out.deep_view());
            return out;
        }
    }
    assert(norm.take(raw.len() as int) =~= norm);
    out
}

/// What the written text `text` asks: its trimmed text, unless blank.
pub fn question_of(text: &str) -> (w: WriteStep)
    ensures
        trimmed(text@).len() == 0 ==> w is Ignored,
        trimmed(text@).len() > 0 ==> (w matches WriteStep::Ask(q) && q@ == trimmed(text@)),
{
    let query = trim(text);
    if query.as_str().is_empty() {
        WriteStep::Ignored
    } else {
        WriteStep::Ask(query)
    }
}

/// What writing `data` to `ino` asks for: only `ask` accepts writes, and
/// its question is the written bytes as text, trimmed.
pub fn begin_write(ino: u64, data: &[u8]) -> (w: WriteStep)
    ensures
        ino != ASK_INO ==> w is Denied,
        ino == ASK_INO && trimmed(utf8_lossy(data@)).len() == 0 ==> w is Ignored,
        ino == ASK_INO && trimmed(utf8_lossy(data@)).len() > 0 ==> (w matches WriteStep::Ask(q)
            && q@ == trimmed(utf8_lossy(data@))),
{
    if ino != ASK_INO {
        return WriteStep::Denied;
    }
    let raw = decode_utf8_lossy(data);
    question_of(raw.as_str())
}

impl AiFS {
    /// Keeps the outcome of a question: the search results made from the
    /// raw hits, and the answer.
    pub fn finish_question(&mut self, raw_paths: &Vec<String>, answer: String)
        requires
            old(self).wf(),
        ensures
            final(self).wf(),
            final(self).results() == search_results(raw_paths.deep_view()),
            final(self).answer() == answer@,
            final(self).tag_view() == old(self).tag_view(),
            final(self).last_refresh() == old(self).last_refresh(),
    {
        self.results = unique_paths(raw_paths);
        self.answer = answer;
    }
}

} // verus!
