//! The text of office documents (`docx`, `pptx`): zip archives whose XML
//! members hold the document body or the slides.

use vstd::prelude::*;
use std::io::Cursor;
use zip::ZipArchive;
use crate::indexer::{is_text_part, wants_archive_entry, xml_text, xml_text_of};

verus! {

#[verifier::external_type_specification]
#[verifier::external_body]
#[verifier::reject_recursive_types(T)]
pub struct ExCursor<T>(std::io::Cursor<T>);

#[verifier::external_type_specification]
#[verifier::external_body]
#[verifier::reject_recursive_types(R)]
pub struct ExZipArchive<R>(zip::ZipArchive<R>);

/// One member of an archive as it reads: `None` where it cannot be opened
/// or its name cannot be read; else its name and, where its content reads
/// as UTF-8 text, that text.
pub type MemberView = Option<(Seq<char>, Option<Seq<char>>)>;

/// The members, in index order, of the zip archive held in `bytes`, as the
/// `zip` crate reads them; `None` when the archive does not open.
pub uninterp spec fn zip_members(bytes: Seq<u8>) -> Option<Seq<Option<(Seq<char>, Option<Seq<char>>)>>>;

/// The members of an opened archive, in index order.
pub uninterp spec fn archive_members(a: ZipArchive<Cursor<Vec<u8>>>) -> Seq<Option<(Seq<char>, Option<Seq<char>>)>>;

/// `ZipArchive::new` over the bytes. Claimed: it opens exactly when
/// `zip_members` of the bytes is `Some`, and the opened archive holds those
/// members. The result is a function of the bytes alone, read from memory.
#[verifier::external_body]
fn open_archive(bytes: Vec<u8>) -> (r: Option<ZipArchive<Cursor<Vec<u8>>>>)
    ensures
        r is Some <==> zip_members(bytes@) is Some,
        r matches Some(a) ==> archive_members(a) == zip_members(bytes@)->Some_0,
{
    ZipArchive::new(Cursor::new(bytes)).ok()
}

/// `ZipArchive::len`. Claimed: the number of members.
#[verifier::external_body]
fn member_count(a: &ZipArchive<Cursor<Vec<u8>>>) -> (n: usize)
    ensures
        n == archive_members(*a).len(),
{
    a.len()
}

/// `ZipArchive::by_index`, the member handed out as plain values: its name
/// (`ZipFile::name`) and its content as text (`Read::read_to_string`).
/// Claimed: the result is member `i` of the archive, and reading it leaves
/// the members as they were. `by_index` reads the member's header from the
/// archive's bytes each time, so the same member reads the same way.
#[verifier::external_body]
fn read_member(a: &mut ZipArchive<Cursor<Vec<u8>>>, i: usize) -> (r: Option<(String, Option<String>)>)
    requires
        i < archive_members(*old(a)).len(),
    ensures
        archive_members(*final(a)) == archive_members(*old(a)),
        match (r, archive_members(*old(a))[i as int]) {
            (Some((n, t)), Some((vn, vt))) => n@ == vn && match (t, vt) {
                (Some(x), Some(y)) => x@ == y,
                (None, None) => true,
                _ => false,
            },
            (None, None) => true,
            _ => false,
        },
{
    let mut f = match a.by_index(i) {
        Ok(f) => f,
        Err(_) => return None,
    };
    let name = match f.name() {
        Ok(n) => n.to_string(),
        Err(_) => return None,
    };
    let mut text = String::new();
    match std::io::Read::read_to_string(&mut f, &mut text) {
        Ok(_) => Some((name, Some(text))),
        Err(_) => Some((name, None)),
    }
}

/// The text of members `s`: the XML text of each member that holds
/// document text, in order; `None` when one of them cannot be read, or when
/// any member cannot be opened or named.
pub open spec fn members_text(s: Seq<Option<(Seq<char>, Option<Seq<char>>)>>) -> Option<Seq<char>>
    decreases s.len(),
{
    if s.len() == 0 {
        Some(Seq::empty())
    } else {
        match (members_text(s.drop_last()), s.last()) {
            (Some(t), Some((name, text))) => if is_text_part(name) {
                match text {
                    Some(x) => Some(t + xml_text(x)),
                    None => None,
                }
            } else {
                Some(t)
            },
            _ => None,
        }
    }
}

/// The text of an office document from the members of its archive;
/// `None` when the archive does not open or a needed member fails.
pub open spec fn office_text_of(m: Option<Seq<Option<(Seq<char>, Option<Seq<char>>)>>>) -> Option<Seq<char>> {
    match m {
        Some(s) => members_text(s),
        None => None,
    }
}

/// The text of the office document whose bytes are `archive`.
pub fn office_text(archive: &[u8]) -> (r: Option<String>)
    ensures
        match (r, office_text_of(zip_members(archive@))) {
            (Some(t), Some(u)) => t@ == u,
            (None, None) => true,
            _ => false,
        },
{
    let bytes = vstd::slice::slice_to_vec(archive);
    let mut a = match open_archive(bytes) {
        Some(a) => a,
        None => return None,
    };
    let ghost members = archive_members(a);
    assert(zip_members(archive@) == Some(members));
    let n = member_count(&a);
    let mut content: Vec<char> = Vec::new();
    assert(members.take(0) =~= Seq::<MemberView>::empty());
    for i in 0..n
        invariant
            n == members.len(),
            archive_members(a) == members,
            zip_members(archive@) == Some(members),
            members_text(members.take(i as int)) == Some(content@),
    {
        let ghost pre = members.take(i as int);
        let ghost next = members.take(i + 1);
        assert(next.drop_last() =~= pre);
        assert(next.last() == members[i as int]);
        match read_member(&mut a, i) {
            None => {
                proof {
                    lemma_members_text_fails(members, (i + 1) as int);
                }
                return None;
            },
            Some((name, text)) => {
                if wants_archive_entry(name.as_str()) {
                    match text {
                        None => {
                            proof {
                                lemma_members_text_fails(members, (i + 1) as int);
                            }
                            return None;
                        },
                        Some(x) => {
                            let piece = xml_text_of(x.as_str());
                            let ghost before = content@;
                            let chars = crate::text::chars_of(piece.as_str());
                            for j in 0..chars.len()
                                invariant
                                    content@ == before + chars@.take(j as int),
                            {
                                content.push(chars[j]);
                                assert(chars@.take(j as int).push(chars@[j as int]) =~= chars@.take(j + 1));
                            }
                            assert(chars@.take(chars@.len() as int) =~= chars@);
                        },
                    }
                }
            },
        }
    }
    assert(members.take(members.len() as int) =~= members);
    Some(crate::text::string_from(content.as_slice()))
}

/// Once the text of a prefix of the members fails, so does the text of
/// every longer prefix.
proof fn lemma_members_text_fails(s: Seq<Option<(Seq<char>, Option<Seq<char>>)>>, i: int)
    requires
        0 <= i <= s.len(),
        members_text(s.take(i)) is None,
    ensures
        members_text(s) is None,
    decreases s.len() - i,
{
    if i < s.len() {
        assert(s.take(i + 1).drop_last() =~= s.take(i));
        lemma_members_text_fails(s, i + 1);
    } else {
        assert(s.take(i) =~= s);
    }
}

} // verus!
