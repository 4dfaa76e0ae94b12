//! The tag view of the document store: which files carry which tag, the
//! inode of each tag directory, and the sorted list of known files that
//! gives each file its inode.

use vstd::prelude::*;
use crate::text::{bytes_lt, chars_of, forward_slashes, forward_slashes_of, lemma_bytes_lt_transitive, lemma_bytes_lt_trichotomy, lowercase, split_char, split_chars, str_less, string_from, to_lowercase, trim_chars, trimmed, utf8};

verus! {

broadcast use vstd::utf8::encode_utf8_decode_utf8;

/// A tag as it is kept: trimmed and in lower case.
pub open spec fn clean_tag(raw: Seq<char>) -> Seq<char> {
    lowercase(trimmed(raw))
}

/// The non-empty cleaned tags of the comma-separated pieces `raws`, in order.
pub open spec fn cleaned_tags(raws: Seq<Seq<char>>) -> Seq<Seq<char>>
    decreases raws.len(),
{
    if raws.len() == 0 {
        Seq::empty()
    } else {
        let rest = cleaned_tags(raws.drop_last());
        let t = clean_tag(raws.last());
        if t.len() > 0 {
            rest.push(t)
        } else {
            rest
        }
    }
}

/// The tags that a comma-separated tag text names, in order.
pub open spec fn record_tags(text: Seq<char>) -> Seq<Seq<char>> {
    cleaned_tags(split_char(text, ','))
}

/// `m` with the path `p` appended to the list of the tag `t`.
pub open spec fn add_path(
    m: Map<Seq<char>, Seq<Seq<char>>>,
    t: Seq<char>,
    p: Seq<char>,
) -> Map<Seq<char>, Seq<Seq<char>>> {
    if m.contains_key(t) {
        m.insert(t, m[t].push(p))
    } else {
        m.insert(t, seq![p])
    }
}

/// `m` with `p` appended under each of the tags `ts`, in order.
pub open spec fn add_paths(
    m: Map<Seq<char>, Seq<Seq<char>>>,
    p: Seq<char>,
    ts: Seq<Seq<char>>,
) -> Map<Seq<char>, Seq<Seq<char>>>
    decreases ts.len(),
{
    if ts.len() == 0 {
        m
    } else {
        add_path(add_paths(m, p, ts.drop_last()), ts.last(), p)
    }
}

/// The tag map of a list of (path, tags) records: each tag maps to the
/// normalized paths of the records that name it, in record order, once per
/// mention.
pub open spec fn tag_map(records: Seq<(Seq<char>, Seq<char>)>) -> Map<
    Seq<char>,
    Seq<Seq<char>>,
>
    decreases records.len(),
{
    if records.len() == 0 {
        Map::empty()
    } else {
        let r = records.last();
        add_paths(tag_map(records.drop_last()), forward_slashes(r.0), record_tags(r.1))
    }
}

/// `order` followed by those of `ts` that are new, in order of first mention.
pub open spec fn note_tags(order: Seq<Seq<char>>, ts: Seq<Seq<char>>) -> Seq<Seq<char>>
    decreases ts.len(),
{
    if ts.len() == 0 {
        order
    } else {
        let o = note_tags(order, ts.drop_last());
        if o.contains(ts.last()) {
            o
        } else {
            o.push(ts.last())
        }
    }
}

/// The tags of the records in order of first mention.
pub open spec fn tag_order(records: Seq<(Seq<char>, Seq<char>)>) -> Seq<Seq<char>>
    decreases records.len(),
{
    if records.len() == 0 {
        Seq::empty()
    } else {
        note_tags(tag_order(records.drop_last()), record_tags(records.last().1))
    }
}

/// The normalized path of each record.
pub open spec fn record_paths(records: Seq<(Seq<char>, Seq<char>)>) -> Seq<Seq<char>> {
    records.map_values(|r: (Seq<char>, Seq<char>)| forward_slashes(r.0))
}

/// Each text sorts strictly before the next, byte by byte.
pub open spec fn strictly_sorted(s: Seq<Seq<char>>) -> bool {
    forall|i: int, j: int| 0 <= i < j < s.len() ==> bytes_lt(utf8(#[trigger] s[i]), utf8(#[trigger] s[j]))
}

/// The sum of the bytes `b`.
pub open spec fn byte_sum(b: Seq<u8>) -> nat
    decreases b.len(),
{
    if b.len() == 0 {
        0
    } else {
        byte_sum(b.drop_last()) + b.last() as nat
    }
}

/// The inode of the directory of tag `t`: 1000 plus the wrapping 64-bit sum
/// of its UTF-8 bytes, taken modulo 9000.
pub open spec fn tag_inode(t: Seq<char>) -> u64 {
    (1000 + (byte_sum(utf8(t)) % 0x1_0000_0000_0000_0000) % 9000) as u64
}

/// The inode of the directory of `tag`.
pub fn tag_hash(tag: &str) -> (ino: u64)
    ensures
        ino == tag_inode(tag@),
        1000 <= ino <= 9999,
{
    let b = tag.as_bytes();
    let mut h: u64 = 0;
    assert(b@.take(0) =~= Seq::<u8>::empty());
    for i in 0..b.len()
        invariant
            b@ == utf8(tag@),
            h as nat == byte_sum(b@.take(i as int)) % 0x1_0000_0000_0000_0000,
    {
        let x = b[i];
        let ghost s = byte_sum(b@.take(i as int));
        assert(b@.take(i + 1).drop_last() =~= b@.take(i as int));
        assert(byte_sum(b@.take(i + 1)) == s + x);
        proof {
            vstd::arithmetic::div_mod::lemma_add_mod_noop(
                s as int,
                x as int,
                0x1_0000_0000_0000_0000int,
            );
            vstd::arithmetic::div_mod::lemma_small_mod(x as nat, 0x1_0000_0000_0000_0000nat);
            if h + x >= 0x1_0000_0000_0000_0000 {
                vstd::arithmetic::div_mod::lemma_mod_self_0(0x1_0000_0000_0000_0000int);
                vstd::arithmetic::div_mod::lemma_mod_add_multiples_vanish(
                    (h + x - 0x1_0000_0000_0000_0000) as int,
                    0x1_0000_0000_0000_0000int,
                );
                vstd::arithmetic::div_mod::lemma_small_mod(
                    (h + x - 0x1_0000_0000_0000_0000) as nat,
                    0x1_0000_0000_0000_0000nat,
                );
            } else {
                vstd::arithmetic::div_mod::lemma_small_mod(
                    (h + x) as nat,
                    0x1_0000_0000_0000_0000nat,
                );
            }
        }
        h = h.wrapping_add(x as u64);
    }
    assert(b@.take(b@.len() as int) =~= b@);
    1000 + (h % 9000)
}


/// The first position of `x` in `s`, or -1 where `x` does not occur.
pub open spec fn position(s: Seq<Seq<char>>, x: Seq<char>) -> int
    decreases s.len(),
{
    if s.len() == 0 {
        -1
    } else {
        let k = position(s.drop_last(), x);
        if k >= 0 {
            k
        } else if s.last() == x {
            s.len() - 1
        } else {
            -1
        }
    }
}

/// `position` finds a text exactly when it occurs, and finds its first
/// occurrence.
pub proof fn lemma_position(s: Seq<Seq<char>>, x: Seq<char>)
    ensures
        s.contains(x) <==> position(s, x) >= 0,
        s.contains(x) ==> position(s, x) < s.len() && s[position(s, x)] == x,
        s.contains(x) ==> forall|j: int| 0 <= j < position(s, x) ==> s[j] != x,
    decreases s.len(),
{
    if s.len() > 0 {
        lemma_position(s.drop_last(), x);
        if s.drop_last().contains(x) {
            let j = choose|j: int| 0 <= j < s.drop_last().len() && s.drop_last()[j] == x;
            assert(s[j] == x);
        }
        if s.contains(x) && !s.drop_last().contains(x) {
            let j = choose|j: int| 0 <= j < s.len() && s[j] == x;
            if j < s.len() - 1 {
                assert(s.drop_last()[j] == x);
            }
        }
        if position(s.drop_last(), x) >= 0 {
            assert(s.drop_last().contains(x));
        }
        if s.contains(x) {
            assert forall|j: int| 0 <= j < position(s, x) implies s[j] != x by {
                assert(s[j] == s.drop_last()[j]);
                if !s.drop_last().contains(x) && s[j] == x {
                    assert(s.drop_last().contains(x));
                }
            }
        }
    }
}

proof fn lemma_position_unique(s: Seq<Seq<char>>, k: int)
    requires
        s.no_duplicates(),
        0 <= k < s.len(),
    ensures
        position(s, s[k]) == k,
{
    lemma_position(s, s[k]);
}

/// The map whose keys are `keys` and whose value at `keys[k]` is `lists[k]`.
pub open spec fn assoc(keys: Seq<Seq<char>>, lists: Seq<Seq<Seq<char>>>) -> Map<
    Seq<char>,
    Seq<Seq<char>>,
> {
    Map::new(|t: Seq<char>| keys.contains(t), |t: Seq<char>| lists[position(keys, t)])
}

proof fn lemma_assoc_update(
    keys: Seq<Seq<char>>,
    lists: Seq<Seq<Seq<char>>>,
    k: int,
    p: Seq<char>,
)
    requires
        keys.no_duplicates(),
        keys.len() == lists.len(),
        0 <= k < keys.len(),
    ensures
        assoc(keys, lists.update(k, lists[k].push(p))) == add_path(assoc(keys, lists), keys[k], p),
{
    lemma_position_unique(keys, k);
    let a = assoc(keys, lists.update(k, lists[k].push(p)));
    let b = add_path(assoc(keys, lists), keys[k], p);
    assert(keys.contains(keys[k]));
    assert forall|t: Seq<char>| #[trigger] a.contains_key(t) implies a[t] == b[t] by {
        lemma_position(keys, t);
    }
    assert(a =~= b);
}

proof fn lemma_assoc_push(
    keys: Seq<Seq<char>>,
    lists: Seq<Seq<Seq<char>>>,
    t: Seq<char>,
    p: Seq<char>,
)
    requires
        keys.no_duplicates(),
        keys.len() == lists.len(),
        !keys.contains(t),
    ensures
        keys.push(t).no_duplicates(),
        assoc(keys.push(t), lists.push(seq![p])) == add_path(assoc(keys, lists), t, p),
{
    let k2 = keys.push(t);
    assert forall|i: int, j: int| 0 <= i < k2.len() && 0 <= j < k2.len() && i != j implies k2[i]
        != k2[j] by {
        if i == keys.len() {
            assert(k2[j] == keys[j]);
            assert(keys[j] != t) by {
                assert(keys.contains(keys[j]));
            }
        } else if j == keys.len() {
            assert(k2[i] == keys[i]);
            assert(keys[i] != t) by {
                assert(keys.contains(keys[i]));
            }
        }
    }
    let a = assoc(k2, lists.push(seq![p]));
    let b = add_path(assoc(keys, lists), t, p);
    assert forall|x: Seq<char>| #[trigger] a.contains_key(x) <==> b.contains_key(x) by {
        if k2.contains(x) && x != t {
            let j = choose|j: int| 0 <= j < k2.len() && k2[j] == x;
            assert(keys[j] == x);
        }
        if keys.contains(x) {
            let j = choose|j: int| 0 <= j < keys.len() && keys[j] == x;
            assert(k2[j] == x);
        }
        assert(k2[keys.len() as int] == t);
    }
    assert forall|x: Seq<char>| #[trigger] a.contains_key(x) implies a[x] == b[x] by {
        lemma_position(k2, x);
        lemma_position(keys, x);
        if x == t {
            lemma_position_unique(k2, keys.len() as int);
        } else {
            lemma_position(keys, x);
            let j = position(keys, x);
            assert(k2[j] == x);
            assert(keys.contains(x));
            lemma_position_unique(k2, j);
        }
    }
    assert(a =~= b);
}

/// The tag directories and the known files, rebuilt from the store's
/// (path, tags) records.
pub struct TagView {
    keys: Vec<String>,
    lists: Vec<Vec<String>>,
    files: Vec<String>,
}

impl TagView {
    /// The tags, in order of first mention.
    pub closed spec fn tags(&self) -> Seq<Seq<char>> {
        self.keys.deep_view()
    }

    /// The files of each tag, position by position with `tags()`.
    pub closed spec fn tag_files(&self) -> Seq<Seq<Seq<char>>> {
        self.lists.deep_view()
    }

    /// Every known file, sorted; position `i` has inode `100000 + i`.
    pub closed spec fn files(&self) -> Seq<Seq<char>> {
        self.files.deep_view()
    }

    /// The tag map: each tag and its files.
    pub open spec fn map(&self) -> Map<Seq<char>, Seq<Seq<char>>> {
        assoc(self.tags(), self.tag_files())
    }

    /// Tags are distinct, every tag has a file list, every listed file is a
    /// known file, and the known files are sorted without repeats.
    pub open spec fn wf(&self) -> bool {
        &&& self.tags().no_duplicates()
        &&& self.tags().len() == self.tag_files().len()
        &&& strictly_sorted(self.files())
        &&& self.files().len() <= u64::MAX - 100000
        &&& forall|k: int, m: int|
            0 <= k < self.tag_files().len() && 0 <= m < self.tag_files()[k].len()
                ==> self.files().contains(#[trigger] self.tag_files()[k][m])
    }

    /// No tag and no file.
    pub fn new() -> (v: Self)
        ensures
            v.wf(),
            v.tags() == Seq::<Seq<char>>::empty(),
            v.files() == Seq::<Seq<char>>::empty(),
            v.map() == Map::<Seq<char>, Seq<Seq<char>>>::empty(),
    {
        let v = TagView { keys: Vec::new(), lists: Vec::new(), files: Vec::new() };
        assert(v.tags() =~= Seq::<Seq<char>>::empty());
        assert(v.tag_files() =~= Seq::<Seq<Seq<char>>>::empty());
        assert(v.files() =~= Seq::<Seq<char>>::empty());
        assert(v.map() =~= Map::<Seq<char>, Seq<Seq<char>>>::empty());
        v
    }
}


proof fn lemma_utf8_injective(a: Seq<char>, b: Seq<char>)
    requires
        utf8(a) == utf8(b),
    ensures
        a == b,
{
    assert(vstd::utf8::decode_utf8(vstd::utf8::encode_utf8(a)) == a);
    assert(vstd::utf8::decode_utf8(vstd::utf8::encode_utf8(b)) == b);
}

/// Adds `p` to the sorted list `files` unless it is there already.
fn insert_sorted(files: &mut Vec<String>, p: String)
    requires
        strictly_sorted(old(files).deep_view()),
    ensures
        strictly_sorted(final(files).deep_view()),
        forall|x: Seq<char>|
            #[trigger] final(files).deep_view().contains(x) <==> (old(files).deep_view().contains(x)
                || x == p@),
        final(files).len() <= old(files).len() + 1,
{
    let ghost old_v = files.deep_view();
    let mut k: usize = 0;
    while k < files.len() && str_less(files[k].as_str(), p.as_str())
        invariant
            k <= files.len(),
            files.deep_view() == old_v,
            forall|j: int| 0 <= j < k ==> bytes_lt(utf8(#[trigger] old_v[j]), utf8(p@)),
        decreases files.len() - k,
    {
        k = k + 1;
    }
    if k < files.len() && files[k] == p {
        assert(old_v[k as int] == p@);
        return;
    }
    proof {
        if k < files.len() {
            lemma_bytes_lt_trichotomy(utf8(old_v[k as int]), utf8(p@));
            if utf8(old_v[k as int]) == utf8(p@) {
                lemma_utf8_injective(old_v[k as int], p@);
            }
            assert(bytes_lt(utf8(p@), utf8(old_v[k as int])));
        }
    }
    let ghost pv = p@;
    files.insert(k, p);
    let ghost new_v = old_v.insert(k as int, pv);
    assert(files.deep_view() =~= new_v) by {
        assert forall|i: int| 0 <= i < new_v.len() implies #[trigger] files.deep_view()[i]
            == new_v[i] by {
            if i < k {
                assert(files@[i] == old(files)@[i]);
            } else if i > k {
                assert(files@[i] == old(files)@[i - 1]);
            }
        }
    }
    assert forall|i: int, j: int| 0 <= i < j < new_v.len() implies bytes_lt(
        utf8(#[trigger] new_v[i]),
        utf8(#[trigger] new_v[j]),
    ) by {
        if j < k {
        } else if j == k {
        } else if i < k {
            if j - 1 > k {
                lemma_bytes_lt_transitive(utf8(pv), utf8(old_v[k as int]), utf8(old_v[j - 1]));
            }
            assert(bytes_lt(utf8(pv), utf8(old_v[j - 1])));
            lemma_bytes_lt_transitive(utf8(old_v[i]), utf8(pv), utf8(old_v[j - 1]));
            assert(new_v[i] == old_v[i]);
        } else if i == k {
            if j - 1 > k {
                lemma_bytes_lt_transitive(utf8(pv), utf8(old_v[k as int]), utf8(old_v[j - 1]));
            }
        } else {
            assert(new_v[i] == old_v[i - 1]);
        }
    }
    assert forall|x: Seq<char>| #[trigger] new_v.contains(x) <==> (old_v.contains(x) || x == pv) by {
        if new_v.contains(x) {
            let i = choose|i: int| 0 <= i < new_v.len() && new_v[i] == x;
            if i < k {
                assert(old_v[i] == x);
            } else if i > k {
                assert(old_v[i - 1] == x);
            }
        }
        if old_v.contains(x) {
            let i = choose|i: int| 0 <= i < old_v.len() && old_v[i] == x;
            if i < k {
                assert(new_v[i] == x);
            } else {
                assert(new_v[i + 1] == x);
            }
        }
        if x == pv {
            assert(new_v[k as int] == x);
        }
    }
}


/// The position of `t` among `keys`, if it is there.
fn find_key(keys: &Vec<String>, t: &String) -> (r: Option<usize>)
    ensures
        r matches Some(k) ==> k < keys.len() && keys.deep_view()[k as int] == t@,
        r is None ==> !keys.deep_view().contains(t@),
{
    for k in 0..keys.len()
        invariant
            forall|j: int| 0 <= j < k ==> keys.deep_view()[j] != t@,
    {
        if keys[k] == *t {
            return Some(k);
        }
    }
    assert forall|j: int| 0 <= j < keys.deep_view().len() implies keys.deep_view()[j] != t@ by {}
    None
}

/// Appends `p` under the tag `t`, creating the tag after the others if new.
fn add_tag_path(keys: &mut Vec<String>, lists: &mut Vec<Vec<String>>, t: String, p: String)
    requires
        old(keys).deep_view().no_duplicates(),
        old(keys).len() == old(lists).len(),
    ensures
        final(keys).deep_view().no_duplicates(),
        final(keys).len() == final(lists).len(),
        final(keys).deep_view() == (if old(keys).deep_view().contains(t@) {
            old(keys).deep_view()
        } else {
            old(keys).deep_view().push(t@)
        }),
        assoc(final(keys).deep_view(), final(lists).deep_view()) == add_path(
            assoc(old(keys).deep_view(), old(lists).deep_view()),
            t@,
            p@,
        ),
        forall|k: int, m: int|
            0 <= k < final(lists).deep_view().len() && 0 <= m < final(lists).deep_view()[k].len()
                ==> (#[trigger] final(lists).deep_view()[k][m] == p@ || (k < old(
                lists,
            ).deep_view().len() && m < old(lists).deep_view()[k].len()
                && final(lists).deep_view()[k][m] == old(lists).deep_view()[k][m])),
{
    let ghost ok = keys.deep_view();
    let ghost ol = lists.deep_view();
    let ghost pv = p@;
    let ghost tv = t@;
    match find_key(keys, &t) {
        Some(k) => {
            let mut l = lists[k].clone();
            proof {
                assert(l.deep_view() == ol[k as int]) by {
                    assert(l.deep_view() =~= lists@[k as int].deep_view());
                }
            }
            l.push(p);
            let ghost lv = l.deep_view();
            assert(lv =~= ol[k as int].push(pv)) by {
                assert forall|m: int| 0 <= m < lv.len() implies lv[m] == ol[k as int].push(pv)[m] by {
                }
            }
            lists.set(k, l);
            assert(lists.deep_view() =~= ol.update(k as int, ol[k as int].push(pv))) by {
                assert forall|j: int| 0 <= j < ol.len() implies #[trigger] lists.deep_view()[j]
                    == ol.update(k as int, ol[k as int].push(pv))[j] by {
                    if j != k {
                        assert(lists@[j] == old(lists)@[j]);
                    }
                }
            }
            proof {
                lemma_assoc_update(ok, ol, k as int, pv);
            }
        },
        None => {
            keys.push(t);
            let mut l: Vec<String> = Vec::new();
            l.push(p);
            assert(l.deep_view() =~= seq![pv]);
            lists.push(l);
            assert(keys.deep_view() =~= ok.push(tv)) by {
                assert forall|j: int| 0 <= j < ok.len() implies #[trigger] keys.deep_view()[j]
                    == ok[j] by {
                    assert(keys@[j] == old(keys)@[j]);
                }
            }
            assert(lists.deep_view() =~= ol.push(seq![pv])) by {
                assert forall|j: int| 0 <= j < ol.len() implies #[trigger] lists.deep_view()[j]
                    == ol[j] by {
                    assert(lists@[j] == old(lists)@[j]);
                }
            }
            proof {
                lemma_assoc_push(ok, ol, tv, pv);
            }
        },
    }
}


impl TagView {
    /// Rebuilds the view from the store's (path, comma-separated tags)
    /// records: paths get forward slashes, each tag is trimmed and put in
    /// lower case, empty tags are skipped, and the known files are the
    /// distinct paths in sorted order.
    pub fn rebuild(records: &Vec<(String, String)>) -> (v: Self)
        requires
            records.len() <= u64::MAX - 100000,
        ensures
            v.wf(),
            v.map() == tag_map(records.deep_view()),
            v.tags() == tag_order(records.deep_view()),
            forall|x: Seq<char>| #[trigger] v.files().contains(x) <==> record_paths(records.deep_view()).contains(x),
            v.files().len() <= records.len(),
    {
        let ghost recs = records.deep_view();
        let mut v = TagView::new();
        assert(recs.take(0) =~= Seq::<(Seq<char>, Seq<char>)>::empty());
        for i in 0..records.len()
            invariant
                recs == records.deep_view(),
                records.len() <= u64::MAX - 100000,
                v.wf(),
                v.tags() == tag_order(recs.take(i as int)),
                v.map() == tag_map(recs.take(i as int)),
                forall|x: Seq<char>| #[trigger] v.files().contains(x) <==> record_paths(recs.take(i as int)).contains(x),
                v.files().len() <= i,
        {
            let ghost pre = recs.take(i as int);
            let ghost next = recs.take(i + 1);
            assert(next.drop_last() =~= pre);
            assert(next.last() == recs[i as int]);
            let ghost order0 = v.tags();
            let ghost map0 = v.map();
            let p = forward_slashes_of(records[i].0.as_str());
            let ghost pv = p@;
            assert(pv == forward_slashes(recs[i as int].0));
            let ghost old_files = v.files();
            insert_sorted(&mut v.files, p.clone());
            assert forall|k: int, m: int|
                0 <= k < v.tag_files().len() && 0 <= m < v.tag_files()[k].len()
                    implies v.files().contains(#[trigger] v.tag_files()[k][m]) by {
                assert(old_files.contains(v.tag_files()[k][m]));
            }
            assert(v.wf());
            assert(record_paths(next) =~= record_paths(pre).push(pv));
            assert forall|x: Seq<char>| #[trigger] record_paths(next).contains(x) <==> (
            record_paths(pre).contains(x) || x == pv) by {
                let rn = record_paths(next);
                let rp = record_paths(pre);
                if rn.contains(x) {
                    let q = choose|q: int| 0 <= q < rn.len() && rn[q] == x;
                    if q < rp.len() {
                        assert(rp[q] == x);
                    }
                }
                if rp.contains(x) {
                    let q = choose|q: int| 0 <= q < rp.len() && rp[q] == x;
                    assert(rn[q] == x);
                }
                if x == pv {
                    assert(rn[rp.len() as int] == x);
                }
            }
            let ghost files_now = v.files();
            let tv = chars_of(records[i].1.as_str());
            let pieces = split_chars(tv.as_slice(), ',');
            let ghost raws = pieces.deep_view();
            assert(raws == split_char(recs[i as int].1, ','));
            assert(raws.take(0) =~= Seq::<Seq<char>>::empty());
            for j in 0..pieces.len()
                invariant
                    raws == pieces.deep_view(),
                    pv == p@,
                    v.wf(),
                    v.files() == files_now,
                    files_now.contains(pv),
                    v.tags() == note_tags(order0, cleaned_tags(raws.take(j as int))),
                    v.map() == add_paths(map0, pv, cleaned_tags(raws.take(j as int))),
            {
                let ghost rp = raws.take(j as int);
                let ghost rn = raws.take(j + 1);
                assert(rn.drop_last() =~= rp);
                assert(rn.last() == raws[j as int]);
                assert(pieces@[j as int].deep_view() =~= pieces@[j as int]@);
                let trimmed_piece = trim_chars(pieces[j].as_slice());
                let trimmed_text = string_from(trimmed_piece.as_slice());
                let t = to_lowercase(trimmed_text.as_str());
                assert(t@ == clean_tag(raws[j as int]));
                let ghost c = cleaned_tags(rp);
                assert(c.push(t@).drop_last() =~= c);
                assert(c.push(t@).last() == t@);
                v.add_tag(t, p.clone());
            }
            assert(raws.take(raws.len() as int) =~= raws);
            assert(record_tags(recs[i as int].1) == cleaned_tags(raws));
        }
        assert(recs.take(recs.len() as int) =~= recs);
        v
    }

    /// Appends `path`, a known file, under `tag`, the tag being created
    /// after the others if new; an empty tag changes nothing.
    pub fn add_tag(&mut self, tag: String, path: String)
        requires
            old(self).wf(),
            old(self).files().contains(path@),
        ensures
            final(self).wf(),
            final(self).files() == old(self).files(),
            tag@.len() == 0 ==> final(self).tags() == old(self).tags() && final(self).map() == old(
                self,
            ).map(),
            tag@.len() > 0 ==> final(self).tags() == (if old(self).tags().contains(tag@) {
                old(self).tags()
            } else {
                old(self).tags().push(tag@)
            }) && final(self).map() == add_path(old(self).map(), tag@, path@),
    {
        if tag.as_str().is_empty() {
            return;
        }
        let ghost ol = self.tag_files();
        let ghost pv = path@;
        add_tag_path(&mut self.keys, &mut self.lists, tag, path);
        assert forall|k: int, m: int|
            0 <= k < self.tag_files().len() && 0 <= m < self.tag_files()[k].len()
                implies self.files().contains(#[trigger] self.tag_files()[k][m]) by {
            if self.tag_files()[k][m] != pv {
                assert(ol[k][m] == self.tag_files()[k][m]);
            }
        }
    }
}


/// The first position in `tags` whose directory inode is `ino`, or -1.
pub open spec fn first_with_inode(tags: Seq<Seq<char>>, ino: u64) -> int
    decreases tags.len(),
{
    if tags.len() == 0 {
        -1
    } else {
        let k = first_with_inode(tags.drop_last(), ino);
        if k >= 0 {
            k
        } else if tag_inode(tags.last()) == ino {
            tags.len() - 1
        } else {
            -1
        }
    }
}

/// `first_with_inode` is the first position whose tag has directory inode
/// `ino`, or -1 where there is none.
pub proof fn lemma_first_with_inode(tags: Seq<Seq<char>>, ino: u64)
    ensures
        -1 <= first_with_inode(tags, ino) < tags.len(),
        first_with_inode(tags, ino) >= 0 ==> tag_inode(tags[first_with_inode(tags, ino)]) == ino,
        forall|j: int|
            0 <= j < tags.len() && (first_with_inode(tags, ino) < 0 || j < first_with_inode(tags, ino))
                ==> tag_inode(#[trigger] tags[j]) != ino,
    decreases tags.len(),
{
    if tags.len() > 0 {
        lemma_first_with_inode(tags.drop_last(), ino);
        assert forall|j: int|
            0 <= j < tags.len() && (first_with_inode(tags, ino) < 0 || j < first_with_inode(tags, ino))
                implies tag_inode(#[trigger] tags[j]) != ino by {
            if j < tags.len() - 1 {
                assert(tags[j] == tags.drop_last()[j]);
            }
        }
    }
}

/// The inode of the known file `p`: 100000 plus its position, if known.
pub open spec fn file_inode_of(files: Seq<Seq<char>>, p: Seq<char>) -> Option<u64> {
    if files.contains(p) {
        Some((100000 + position(files, p)) as u64)
    } else {
        None
    }
}

impl TagView {
    /// Whether `name` is a tag.
    pub fn has_tag(&self, name: &str) -> (b: bool)
        ensures
            b == self.tags().contains(name@),
    {
        let t = name.to_owned();
        find_key(&self.keys, &t).is_some()
    }

    /// The number of tags.
    pub fn tag_count(&self) -> (n: usize)
        ensures
            n == self.tags().len(),
    {
        self.keys.len()
    }

    /// The `k`-th tag.
    pub fn tag_name(&self, k: usize) -> (t: &String)
        requires
            k < self.tags().len(),
        ensures
            t@ == self.tags()[k as int],
    {
        &self.keys[k]
    }

    /// The files of the `k`-th tag.
    pub fn files_of_tag(&self, k: usize) -> (l: &Vec<String>)
        requires
            self.wf(),
            k < self.tags().len(),
        ensures
            l.deep_view() == self.tag_files()[k as int],
    {
        &self.lists[k]
    }

    /// The number of known files.
    pub fn file_count(&self) -> (n: usize)
        ensures
            n == self.files().len(),
    {
        self.files.len()
    }

    /// The known file at position `i`.
    pub fn file_at(&self, i: usize) -> (p: &String)
        requires
            i < self.files().len(),
        ensures
            p@ == self.files()[i as int],
    {
        &self.files[i]
    }

    /// The first tag whose directory inode is `ino`.
    pub fn tag_for_inode(&self, ino: u64) -> (r: Option<usize>)
        ensures
            r matches Some(k) ==> k as int == first_with_inode(self.tags(), ino) && k < self.tags().len(),
            r is None ==> first_with_inode(self.tags(), ino) == -1,
    {
        proof {
            lemma_first_with_inode(self.tags(), ino);
        }
        for k in 0..self.keys.len()
            invariant
                forall|j: int| 0 <= j < k ==> tag_inode(#[trigger] self.tags()[j]) != ino,
                -1 <= first_with_inode(self.tags(), ino) < self.tags().len(),
                first_with_inode(self.tags(), ino) >= 0 ==> tag_inode(
                    self.tags()[first_with_inode(self.tags(), ino)],
                ) == ino,
                forall|j: int|
                    0 <= j < self.tags().len() && (first_with_inode(self.tags(), ino) < 0 || j
                        < first_with_inode(self.tags(), ino)) ==> tag_inode(#[trigger] self.tags()[j]) != ino,
        {
            if tag_hash(self.keys[k].as_str()) == ino {
                assert(self.tags()[k as int] == self.keys@[k as int]@);
                return Some(k);
            }
            assert(self.tags()[k as int] == self.keys@[k as int]@);
        }
        None
    }

    /// The inode of the known file `path`.
    pub fn file_inode(&self, path: &str) -> (r: Option<u64>)
        requires
            self.wf(),
        ensures
            r == file_inode_of(self.files(), path@),
    {
        proof {
            lemma_position(self.files(), path@);
        }
        let t = path.to_owned();
        for i in 0..self.files.len()
            invariant
                self.wf(),
                t@ == path@,
                forall|j: int| 0 <= j < i ==> self.files()[j] != path@,
        {
            assert(self.files()[i as int] == self.files@[i as int]@);
            if self.files[i] == t {
                assert(self.files()[i as int] == path@);
                proof {
                    lemma_position(self.files(), path@);
                }
                return Some(100000 + i as u64);
            }
        }
        None
    }
}


proof fn lemma_cleaned_nonempty(raws: Seq<Seq<char>>)
    ensures
        forall|i: int| 0 <= i < cleaned_tags(raws).len() ==> #[trigger] cleaned_tags(raws)[i].len() > 0,
    decreases raws.len(),
{
    if raws.len() > 0 {
        lemma_cleaned_nonempty(raws.drop_last());
        let rest = cleaned_tags(raws.drop_last());
        let c = cleaned_tags(raws);
        assert forall|i: int| 0 <= i < c.len() implies #[trigger] c[i].len() > 0 by {
            if i < rest.len() {
                assert(c[i] == rest[i]);
            }
        }
    }
}

proof fn lemma_note_nonempty(order: Seq<Seq<char>>, ts: Seq<Seq<char>>)
    requires
        forall|i: int| 0 <= i < order.len() ==> #[trigger] order[i].len() > 0,
        forall|i: int| 0 <= i < ts.len() ==> #[trigger] ts[i].len() > 0,
    ensures
        forall|i: int| 0 <= i < note_tags(order, ts).len() ==> #[trigger] note_tags(order, ts)[i].len() > 0,
    decreases ts.len(),
{
    if ts.len() > 0 {
        assert forall|i: int| 0 <= i < ts.drop_last().len() implies #[trigger] ts.drop_last()[i].len() > 0 by {
            assert(ts.drop_last()[i] == ts[i]);
        }
        lemma_note_nonempty(order, ts.drop_last());
        assert(ts.last() == ts[ts.len() - 1]);
        let o = note_tags(order, ts.drop_last());
        let n = note_tags(order, ts);
        assert forall|i: int| 0 <= i < n.len() implies #[trigger] n[i].len() > 0 by {
            if i < o.len() {
                assert(n[i] == o[i]);
            }
        }
    }
}

/// No tag is empty.
pub proof fn lemma_tags_nonempty(records: Seq<(Seq<char>, Seq<char>)>)
    ensures
        forall|i: int| 0 <= i < tag_order(records).len() ==> #[trigger] tag_order(records)[i].len() > 0,
    decreases records.len(),
{
    if records.len() > 0 {
        lemma_tags_nonempty(records.drop_last());
        lemma_cleaned_nonempty(split_char(records.last().1, ','));
        lemma_note_nonempty(tag_order(records.drop_last()), record_tags(records.last().1));
    }
}

/// A strictly sorted list has no repeats.
pub proof fn lemma_sorted_no_duplicates(s: Seq<Seq<char>>)
    requires
        strictly_sorted(s),
    ensures
        s.no_duplicates(),
{
    assert forall|i: int, j: int| 0 <= i < s.len() && 0 <= j < s.len() && i != j implies s[i] != s[j] by {
        if i < j {
            lemma_bytes_lt_trichotomy(utf8(s[i]), utf8(s[j]));
        } else {
            lemma_bytes_lt_trichotomy(utf8(s[j]), utf8(s[i]));
        }
    }
}


/// Every piece of a tag text that cleans to a non-empty tag is one of its
/// tags, and each of its tags is the non-empty cleaned form of a piece.
pub proof fn lemma_record_tags(text: Seq<char>)
    ensures
        forall|k: int|
            0 <= k < split_char(text, ',').len() && clean_tag(#[trigger] split_char(text, ',')[k]).len()
                > 0 ==> record_tags(text).contains(clean_tag(split_char(text, ',')[k])),
        forall|i: int|
            #![trigger record_tags(text)[i]]
            0 <= i < record_tags(text).len() ==> record_tags(text)[i].len() > 0 && exists|k: int|
                0 <= k < split_char(text, ',').len() && record_tags(text)[i] == clean_tag(
                    #[trigger] split_char(text, ',')[k],
                ),
{
    let raws = split_char(text, ',');
    assert forall|k: int| 0 <= k < raws.len() && clean_tag(#[trigger] raws[k]).len() > 0 implies record_tags(
        text,
    ).contains(clean_tag(raws[k])) by {
        lemma_cleaned_contains(raws, k);
    }
    lemma_cleaned_from(raws);
    lemma_cleaned_nonempty(raws);
}

proof fn lemma_cleaned_contains(raws: Seq<Seq<char>>, k: int)
    requires
        0 <= k < raws.len(),
        clean_tag(raws[k]).len() > 0,
    ensures
        cleaned_tags(raws).contains(clean_tag(raws[k])),
    decreases raws.len(),
{
    let c = cleaned_tags(raws);
    let rest = cleaned_tags(raws.drop_last());
    if k == raws.len() - 1 {
        assert(raws.last() == raws[k]);
        assert(c[c.len() - 1] == clean_tag(raws[k]));
    } else {
        assert(raws.drop_last()[k] == raws[k]);
        lemma_cleaned_contains(raws.drop_last(), k);
        let q = choose|q: int| 0 <= q < rest.len() && rest[q] == clean_tag(raws[k]);
        assert(c[q] == rest[q]);
    }
}

proof fn lemma_cleaned_from(raws: Seq<Seq<char>>)
    ensures
        forall|i: int|
            #![trigger cleaned_tags(raws)[i]]
            0 <= i < cleaned_tags(raws).len() ==> exists|k: int|
                0 <= k < raws.len() && cleaned_tags(raws)[i] == clean_tag(#[trigger] raws[k]),
    decreases raws.len(),
{
    if raws.len() > 0 {
        lemma_cleaned_from(raws.drop_last());
        let c = cleaned_tags(raws);
        let rest = cleaned_tags(raws.drop_last());
        assert forall|i: int| #![trigger c[i]] 0 <= i < c.len() implies exists|k: int|
            0 <= k < raws.len() && c[i] == clean_tag(#[trigger] raws[k]) by {
            if i < rest.len() {
                assert(c[i] == rest[i]);
                let k = choose|k: int| 0 <= k < raws.drop_last().len() && rest[i] == clean_tag(
                    #[trigger] raws.drop_last()[k],
                );
                assert(raws[k] == raws.drop_last()[k]);
            } else {
                assert(raws[raws.len() - 1] == raws.last());
            }
        }
    }
}

proof fn lemma_add_path_keeps(m: Map<Seq<char>, Seq<Seq<char>>>, t: Seq<char>, p: Seq<char>, u: Seq<char>, q: Seq<char>)
    requires
        m.contains_key(u),
        m[u].contains(q),
    ensures
        add_path(m, t, p).contains_key(u),
        add_path(m, t, p)[u].contains(q),
{
    if u == t {
        let j = choose|j: int| 0 <= j < m[u].len() && m[u][j] == q;
        assert(m[u].push(p)[j] == q);
    }
}

proof fn lemma_add_paths_keeps(m: Map<Seq<char>, Seq<Seq<char>>>, p: Seq<char>, ts: Seq<Seq<char>>, u: Seq<char>, q: Seq<char>)
    requires
        m.contains_key(u),
        m[u].contains(q),
    ensures
        add_paths(m, p, ts).contains_key(u),
        add_paths(m, p, ts)[u].contains(q),
    decreases ts.len(),
{
    if ts.len() > 0 {
        lemma_add_paths_keeps(m, p, ts.drop_last(), u, q);
        lemma_add_path_keeps(add_paths(m, p, ts.drop_last()), ts.last(), p, u, q);
    }
}

proof fn lemma_add_paths_adds(m: Map<Seq<char>, Seq<Seq<char>>>, p: Seq<char>, ts: Seq<Seq<char>>, t: Seq<char>)
    requires
        ts.contains(t),
    ensures
        add_paths(m, p, ts).contains_key(t),
        add_paths(m, p, ts)[t].contains(p),
    decreases ts.len(),
{
    let m0 = add_paths(m, p, ts.drop_last());
    if ts.last() == t {
        if m0.contains_key(t) {
            assert(m0[t].push(p)[m0[t].len() as int] == p);
        } else {
            assert(seq![p][0] == p);
        }
    } else {
        let j = choose|j: int| 0 <= j < ts.len() && ts[j] == t;
        assert(j != ts.len() - 1);
        assert(ts.drop_last()[j] == t);
        lemma_add_paths_adds(m, p, ts.drop_last(), t);
        lemma_add_path_keeps(m0, ts.last(), p, t, p);
    }
}

proof fn lemma_note_tags_keeps(order: Seq<Seq<char>>, ts: Seq<Seq<char>>, t: Seq<char>)
    requires
        order.contains(t) || ts.contains(t),
    ensures
        note_tags(order, ts).contains(t),
    decreases ts.len(),
{
    if ts.len() > 0 {
        let o = note_tags(order, ts.drop_last());
        if order.contains(t) || ts.drop_last().contains(t) {
            lemma_note_tags_keeps(order, ts.drop_last(), t);
            if !o.contains(ts.last()) {
                let j = choose|j: int| 0 <= j < o.len() && o[j] == t;
                assert(o.push(ts.last())[j] == t);
            }
        } else {
            let j = choose|j: int| 0 <= j < ts.len() && ts[j] == t;
            if j < ts.len() - 1 {
                assert(ts.drop_last()[j] == t);
            }
            assert(ts.last() == t);
            if !o.contains(t) {
                assert(o.push(t)[o.len() as int] == t);
            }
        }
    }
}

/// Every tag that a record names is a tag of the view built from the
/// records (so `tags/<tag>` exists), and that tag's files include the
/// record's path with forward slashes.
pub proof fn lemma_record_tag_listed(records: Seq<(Seq<char>, Seq<char>)>, i: int, t: Seq<char>)
    requires
        0 <= i < records.len(),
        record_tags(records[i].1).contains(t),
    ensures
        tag_order(records).contains(t),
        tag_map(records).contains_key(t),
        tag_map(records)[t].contains(forward_slashes(records[i].0)),
    decreases records.len(),
{
    let pre = records.drop_last();
    let r = records.last();
    let p = forward_slashes(records[i].0);
    if i == records.len() - 1 {
        assert(r == records[i]);
        lemma_add_paths_adds(tag_map(pre), p, record_tags(r.1), t);
        lemma_note_tags_keeps(tag_order(pre), record_tags(r.1), t);
    } else {
        assert(pre[i] == records[i]);
        lemma_record_tag_listed(pre, i, t);
        lemma_add_paths_keeps(tag_map(pre), forward_slashes(r.0), record_tags(r.1), t, p);
        lemma_note_tags_keeps(tag_order(pre), record_tags(r.1), t);
    }
}


/// Every comma-separated piece of a record's tag text that is not blank
/// becomes, trimmed and in lower case, a tag of the view built from the
/// records, whose files include the record's path with forward slashes.
pub proof fn lemma_record_pieces_listed(records: Seq<(Seq<char>, Seq<char>)>, i: int, k: int)
    requires
        0 <= i < records.len(),
        0 <= k < split_char(records[i].1, ',').len(),
        clean_tag(split_char(records[i].1, ',')[k]).len() > 0,
    ensures
        ({
            let t = clean_tag(split_char(records[i].1, ',')[k]);
            &&& tag_order(records).contains(t)
            &&& tag_map(records).contains_key(t)
            &&& tag_map(records)[t].contains(forward_slashes(records[i].0))
        }),
{
    lemma_record_tags(records[i].1);
    lemma_record_tag_listed(records, i, clean_tag(split_char(records[i].1, ',')[k]));
}

} // verus!
