//! Properties of the file system that span requests.

use vstd::prelude::*;
use crate::fs::{
    AiFS, AttrReply, FsError, NodeKind, ANSWER_INO, ROOT_INO, MAX_RESULTS, REFRESH_NANOS, RESULTS_INO,
    TAGS_INO, dir_attr, distinct_in_order, entry_offset, files_under, first_named, getattr_reply,
    is_tag_dir, lemma_first_named, link_attr, lookup_reply, read_reply, readdir_reply,
    readlink_reply, result_entries, search_results, tag_dir_entries, tag_entries,
};
use crate::path::file_name;
use crate::tags::{TagView, file_inode_of, first_with_inode, lemma_first_with_inode, lemma_position, tag_inode};
use crate::text::{decimal, forward_slashes, lemma_parse_decimal, utf8};

verus! {

/// Every entry that `readdir` lists in `results` can be looked up by its
/// name, is a link, and leads to the search result at its position;
/// `getattr` gives its link attributes too, but for the sixth result, whose
/// inode 10 is that of `tags`.
pub proof fn lemma_result_entries_resolve(fs: AiFS, i: int)
    requires
        fs.wf(),
        0 <= i < fs.results().len(),
    ensures
        ({
            let n = fs.results().len();
            let e = result_entries(n)[i];
            let alen = utf8(fs.answer()).len();
            &&& e.2 == NodeKind::Symlink
            &&& lookup_reply(RESULTS_INO, e.3, n, alen, fs.tag_view()) == Ok::<AttrReply, FsError>(
                AttrReply { ttl_secs: 0, attr: link_attr(e.0) },
            )
            &&& (i != 5 ==> getattr_reply(e.0, n, alen) == Ok::<AttrReply, FsError>(
                AttrReply { ttl_secs: 0, attr: link_attr(e.0) },
            ))
            &&& readlink_reply(e.0, fs.results(), fs.tag_view().files()) == Ok::<Seq<char>, FsError>(
                fs.results()[i],
            )
        }),
{
    lemma_parse_decimal(i as u64);
    let n = fs.results().len();
    let e = result_entries(n)[i];
    assert(e.0 == (5 + i) as u64);
    assert(e.3 == decimal(i as nat));
    assert(e.0 - 5 == i);
}

/// Every tag directory that `readdir` lists in `tags` can be looked up by
/// the tag's name, and its inode is a tag directory's.
pub proof fn lemma_tag_entries_resolve(fs: AiFS, k: int)
    requires
        fs.wf(),
        0 <= k < fs.tag_view().tags().len(),
    ensures
        ({
            let tags = fs.tag_view().tags();
            let e = tag_entries(tags)[k];
            let n = fs.results().len();
            let alen = utf8(fs.answer()).len();
            &&& e.0 == tag_inode(tags[k])
            &&& is_tag_dir(e.0)
            &&& e.3 == tags[k]
            &&& lookup_reply(TAGS_INO, e.3, n, alen, fs.tag_view()) == Ok::<AttrReply, FsError>(
                AttrReply { ttl_secs: 1, attr: dir_attr(e.0) },
            )
            &&& getattr_reply(e.0, n, alen) == Ok::<AttrReply, FsError>(
                AttrReply { ttl_secs: 1, attr: dir_attr(e.0) },
            )
        }),
{
    let tags = fs.tag_view().tags();
    assert(tags.contains(tags[k]));
}

/// Every file listed under a tag has an inode in the file range, and that
/// link reads back as the file's path.
pub proof fn lemma_tag_files_link_back(v: TagView, results: Seq<Seq<char>>, k: int, m: int)
    requires
        v.wf(),
        0 <= k < v.tag_files().len(),
        0 <= m < v.tag_files()[k].len(),
    ensures
        ({
            let p = v.tag_files()[k][m];
            &&& file_inode_of(v.files(), p) is Some
            &&& file_inode_of(v.files(), p)->Some_0 >= 100000
            &&& readlink_reply(file_inode_of(v.files(), p)->Some_0, results, v.files())
                == Ok::<Seq<char>, FsError>(p)
        }),
{
    let p = v.tag_files()[k][m];
    assert(v.files().contains(p));
    lemma_position(v.files(), p);
}

proof fn lemma_tag_dir_entries_has(files: Seq<Seq<char>>, fl: Seq<Seq<char>>, m: int)
    requires
        0 <= m < fl.len(),
        file_name(fl[m]) is Some,
        file_inode_of(files, fl[m]) is Some,
    ensures
        tag_dir_entries(files, fl).contains(
            (
                file_inode_of(files, fl[m])->Some_0,
                entry_offset(m),
                NodeKind::Symlink,
                file_name(fl[m])->Some_0,
            ),
        ),
    decreases fl.len(),
{
    let e = (
        file_inode_of(files, fl[m])->Some_0,
        entry_offset(m),
        NodeKind::Symlink,
        file_name(fl[m])->Some_0,
    );
    let rest = tag_dir_entries(files, fl.drop_last());
    if m == fl.len() - 1 {
        assert(fl.last() == fl[m]);
        assert(tag_dir_entries(files, fl) == rest.push(e));
        assert(rest.push(e)[rest.len() as int] == e);
    } else {
        assert(fl.drop_last()[m] == fl[m]);
        lemma_tag_dir_entries_has(files, fl.drop_last(), m);
        let q = choose|q: int| 0 <= q < rest.len() && rest[q] == e;
        let all = tag_dir_entries(files, fl);
        assert(all == rest || all == rest.push((all.last())));
        if all != rest {
            assert(all[q] == e);
        }
    }
}

/// Every file that `readdir` lists in a tag directory, under a file name
/// that no other file of that tag has, can be looked up there by that name
/// and gives the same link; `getattr` gives its link attributes, and the
/// link reads back as the file's path.
pub proof fn lemma_tag_dir_entries_resolve(fs: AiFS, ino: u64, m: int)
    requires
        fs.wf(),
        is_tag_dir(ino),
        0 <= m < files_under(fs.tag_view(), ino).len(),
        file_name(files_under(fs.tag_view(), ino)[m]) is Some,
        forall|j: int|
            0 <= j < files_under(fs.tag_view(), ino).len() && j != m ==> file_name(
                #[trigger] files_under(fs.tag_view(), ino)[j],
            ) != file_name(files_under(fs.tag_view(), ino)[m]),
    ensures
        ({
            let v = fs.tag_view();
            let fl = files_under(v, ino);
            let p = fl[m];
            let name = file_name(p)->Some_0;
            let n = fs.results().len();
            let alen = utf8(fs.answer()).len();
            &&& file_inode_of(v.files(), p) is Some
            &&& {
                let fino = file_inode_of(v.files(), p)->Some_0;
                &&& readdir_reply(ino, 0, n, v) is Ok
                &&& readdir_reply(ino, 0, n, v)->Ok_0.contains(
                    (fino, entry_offset(m), NodeKind::Symlink, name),
                )
                &&& lookup_reply(ino, name, n, alen, v) == Ok::<AttrReply, FsError>(
                    AttrReply { ttl_secs: 1, attr: link_attr(fino) },
                )
                &&& getattr_reply(fino, n, alen) == Ok::<AttrReply, FsError>(
                    AttrReply { ttl_secs: 1, attr: link_attr(fino) },
                )
                &&& readlink_reply(fino, fs.results(), v.files()) == Ok::<Seq<char>, FsError>(p)
            }
        }),
{
    let v = fs.tag_view();
    let fl = files_under(v, ino);
    let p = fl[m];
    let name = file_name(p)->Some_0;
    let k = first_with_inode(v.tags(), ino);
    lemma_first_with_inode(v.tags(), ino);
    assert(k >= 0);
    assert(fl == v.tag_files()[k]);
    assert(v.files().contains(v.tag_files()[k][m]));
    lemma_position(v.files(), p);
    let fino = file_inode_of(v.files(), p)->Some_0;
    lemma_first_named(fl, name);
    let f = first_named(fl, name);
    if f < 0 || f != m {
        if f >= 0 {
            assert(file_name(fl[f]) == Some(name));
        }
        assert(file_name(fl[m]) == Some(name));
    }
    assert(f == m);
    lemma_tag_dir_entries_has(v.files(), fl, m);
    let e = (fino, entry_offset(m), NodeKind::Symlink, name);
    let tde = tag_dir_entries(v.files(), fl);
    let q = choose|q: int| 0 <= q < tde.len() && tde[q] == e;
    let all = readdir_reply(ino, 0, fs.results().len(), v)->Ok_0;
    assert(all[q + 2] == e);
}

/// The kept search results are at most ten, without repeats, and each is a
/// raw hit with forward slashes.
pub proof fn lemma_search_results_shape(raw: Seq<Seq<char>>)
    ensures
        search_results(raw).len() <= MAX_RESULTS,
        search_results(raw).no_duplicates(),
        forall|i: int|
            0 <= i < search_results(raw).len() ==> exists|j: int|
                0 <= j < raw.len() && #[trigger] search_results(raw)[i] == forward_slashes(raw[j]),
{
    let norm = raw.map_values(|p: Seq<char>| forward_slashes(p));
    lemma_distinct_shape(norm);
    let d = distinct_in_order(norm);
    let r = search_results(raw);
    assert forall|i: int| 0 <= i < r.len() implies exists|j: int|
        0 <= j < raw.len() && #[trigger] r[i] == forward_slashes(raw[j]) by {
        assert(r[i] == d[i]);
        assert(norm.contains(d[i]));
        let j = choose|j: int| 0 <= j < norm.len() && norm[j] == d[i];
        assert(norm[j] == forward_slashes(raw[j]));
    }
}

proof fn lemma_distinct_shape(s: Seq<Seq<char>>)
    ensures
        distinct_in_order(s).no_duplicates(),
        forall|i: int| 0 <= i < distinct_in_order(s).len() ==> s.contains(#[trigger] distinct_in_order(s)[i]),
    decreases s.len(),
{
    if s.len() > 0 {
        lemma_distinct_shape(s.drop_last());
        let d = distinct_in_order(s.drop_last());
        assert forall|i: int| 0 <= i < distinct_in_order(s).len() implies s.contains(
            #[trigger] distinct_in_order(s)[i],
        ) by {
            if i < d.len() {
                let x = d[i];
                assert(s.drop_last().contains(x));
                let j = choose|j: int| 0 <= j < s.drop_last().len() && s.drop_last()[j] == x;
                assert(s[j] == x);
            } else {
                assert(s[s.len() - 1] == s.last());
            }
        }
    }
}

/// After a rebuild at `t`, the tag view stays fresh until ten seconds have
/// passed, and is due from then on.
pub proof fn lemma_fresh_for_ten_seconds(fs: AiFS, t: i128, now: i128)
    requires
        fs.last_refresh() == t,
    ensures
        t <= now < t + REFRESH_NANOS ==> !(now < fs.last_refresh() || now - fs.last_refresh()
            >= REFRESH_NANOS),
        now >= t + REFRESH_NANOS ==> (now < fs.last_refresh() || now - fs.last_refresh()
            >= REFRESH_NANOS),
{
}

/// Reading `answer.txt` in two consecutive pieces gives the same bytes as
/// one read of both sizes.
pub proof fn lemma_read_in_pieces(bytes: Seq<u8>, offset: i64, a: u32, b: u32)
    requires
        offset >= 0,
        offset + a <= i64::MAX,
        a + b <= u32::MAX,
    ensures
        ({
            let first = read_reply(ANSWER_INO, offset, a, bytes);
            let second = read_reply(ANSWER_INO, (offset + a) as i64, b, bytes);
            let whole = read_reply(ANSWER_INO, offset, (a + b) as u32, bytes);
            first is Ok && second is Ok && whole is Ok && whole->Ok_0 == first->Ok_0 + second->Ok_0
        }),
{
    let first = read_reply(ANSWER_INO, offset, a, bytes);
    let second = read_reply(ANSWER_INO, (offset + a) as i64, b, bytes);
    let whole = read_reply(ANSWER_INO, offset, (a + b) as u32, bytes);
    if offset < bytes.len() {
        if offset + a < bytes.len() {
            assert(whole->Ok_0 =~= first->Ok_0 + second->Ok_0);
        } else {
            assert(second->Ok_0 =~= Seq::<u8>::empty());
            assert(whole->Ok_0 =~= first->Ok_0 + second->Ok_0);
        }
    } else {
        assert(whole->Ok_0 =~= first->Ok_0 + second->Ok_0);
    }
}


/// Reading `answer.txt` at an offset inside the answer gives the answer's
/// bytes from that offset on, as many as asked for or as there are.
pub proof fn lemma_read_answer_bytes(fs: AiFS, offset: i64, size: u32)
    requires
        0 <= offset < utf8(fs.answer()).len(),
    ensures
        ({
            let bytes = utf8(fs.answer());
            let r = read_reply(ANSWER_INO, offset, size, bytes);
            &&& r is Ok
            &&& r->Ok_0.len() == (if size < bytes.len() - offset {
                size as int
            } else {
                bytes.len() - offset
            })
            &&& forall|i: int| 0 <= i < r->Ok_0.len() ==> #[trigger] r->Ok_0[i] == bytes[offset + i]
        }),
{
}

/// A read of `answer.txt` from its start, asking for at least its length,
/// gives the whole answer; a read at or past its end gives nothing.
pub proof fn lemma_read_whole_answer(fs: AiFS, size: u32, offset: i64)
    requires
        size >= utf8(fs.answer()).len(),
        offset >= utf8(fs.answer()).len(),
    ensures
        read_reply(ANSWER_INO, 0, size, utf8(fs.answer())) == Ok::<Seq<u8>, FsError>(
            utf8(fs.answer()),
        ),
        read_reply(ANSWER_INO, offset, size, utf8(fs.answer())) == Ok::<Seq<u8>, FsError>(
            Seq::empty(),
        ),
{
    let bytes = utf8(fs.answer());
    if bytes.len() > 0 {
        assert(bytes.subrange(0, bytes.len() as int) =~= bytes);
    }
}

/// `getattr` of `answer.txt`, and looking it up in the root, report a
/// read-only regular file whose size is the number of UTF-8 bytes of the
/// current answer, which is the length of a full read of it (where the
/// size fits a single read).
pub proof fn lemma_answer_size(fs: AiFS)
    requires
        fs.wf(),
        utf8(fs.answer()).len() <= u64::MAX,
    ensures
        ({
            let n = fs.results().len();
            let alen = utf8(fs.answer()).len();
            let g = getattr_reply(ANSWER_INO, n, alen);
            let l = lookup_reply(ROOT_INO, "answer.txt"@, n, alen, fs.tag_view());
            let whole = read_reply(ANSWER_INO, 0, alen as u32, utf8(fs.answer()));
            &&& g is Ok
            &&& g->Ok_0.attr.size == alen
            &&& g->Ok_0.attr.ino == ANSWER_INO
            &&& g->Ok_0.attr.kind == NodeKind::RegularFile
            &&& g->Ok_0.attr.perm == 0o444
            &&& l is Ok
            &&& l->Ok_0.attr.size == alen
            &&& l->Ok_0.attr.ino == ANSWER_INO
            &&& alen <= u32::MAX ==> whole is Ok && whole->Ok_0.len() == g->Ok_0.attr.size
        }),
{
    reveal_strlit("answer.txt");
    reveal_strlit("ask");
    reveal_strlit("results");
    let bytes = utf8(fs.answer());
    if bytes.len() > 0 {
        assert(bytes.subrange(0, bytes.len() as int) =~= bytes);
    }
}

} // verus!
