//! File names and extensions of slash-separated paths, as `std::path::Path`
//! reads them on Unix.

use vstd::prelude::*;
use crate::text::{split_char, split_chars, chars_of, string_from};

verus! {

/// A piece between slashes that names a component: not empty and not `.`.
pub open spec fn names_component(seg: Seq<char>) -> bool {
    seg.len() > 0 && seg != seq!['.']
}

/// The last piece of `segs` that names a component.
pub open spec fn last_component(segs: Seq<Seq<char>>) -> Option<Seq<char>>
    decreases segs.len(),
{
    if segs.len() == 0 {
        None
    } else if names_component(segs.last()) {
        Some(segs.last())
    } else {
        last_component(segs.drop_last())
    }
}

/// The final component of `p`, unless the path ends in `..` or has no
/// component (`Path::file_name`).
pub open spec fn file_name(p: Seq<char>) -> Option<Seq<char>> {
    match last_component(split_char(p, '/')) {
        Some(c) => if c == seq!['.', '.'] {
            None
        } else {
            Some(c)
        },
        None => None,
    }
}

/// The index of the last `c` in `s`, or -1 where there is none.
pub open spec fn last_index_of(s: Seq<char>, c: char) -> int
    decreases s.len(),
{
    if s.len() == 0 {
        -1
    } else if s.last() == c {
        s.len() - 1
    } else {
        last_index_of(s.drop_last(), c)
    }
}

/// What follows the last dot of the file name, where that dot is not its
/// first character (`Path::extension`).
pub open spec fn extension(p: Seq<char>) -> Option<Seq<char>> {
    match file_name(p) {
        Some(name) => {
            let i = last_index_of(name, '.');
            if i > 0 {
                Some(name.subrange(i + 1, name.len() as int))
            } else {
                None
            }
        },
        None => None,
    }
}

fn names_component_exec(seg: &Vec<char>) -> (b: bool)
    ensures
        b == names_component(seg@),
{
    if seg.len() == 0 {
        return false;
    }
    if seg.len() == 1 && seg[0] == '.' {
        assert(seg@ =~= seq!['.']);
        return false;
    }
    assert(seg@ != seq!['.']) by {
        if seg@.len() == 1 {
            assert(seg@[0] != seq!['.'][0]);
        }
    }
    true
}

/// The final component of the path `p`.
pub fn file_name_of(p: &str) -> (r: Option<String>)
    ensures
        r matches Some(s) ==> file_name(p@) == Some(s@),
        r is None ==> file_name(p@) is None,
{
    let v = chars_of(p);
    let segs = split_chars(v.as_slice(), '/');
    let ghost all = segs.deep_view();
    let mut k = segs.len();
    assert(all.take(k as int) =~= all);
    while k > 0
        invariant
            k <= segs.len(),
            all == segs.deep_view(),
            all == split_char(p@, '/'),
            last_component(all) == last_component(all.take(k as int)),
        decreases k,
    {
        let ghost pre = all.take(k as int);
        assert(pre.last() == segs@[k - 1]@);
        if names_component_exec(&segs[k - 1]) {
            let seg = &segs[k - 1];
            if seg.len() == 2 && seg[0] == '.' && seg[1] == '.' {
                assert(seg@ =~= seq!['.', '.']);
                return None;
            }
            assert(seg@ != seq!['.', '.']) by {
                if seg@.len() == 2 {
                    assert(seg@[0] != '.' || seg@[1] != '.');
                    if seg@[0] != '.' {
                        assert(seg@[0] != seq!['.', '.'][0]);
                    } else {
                        assert(seg@[1] != seq!['.', '.'][1]);
                    }
                }
            }
            return Some(string_from(seg.as_slice()));
        }
        assert(pre.drop_last() =~= all.take(k - 1));
        k = k - 1;
    }
    None
}

/// The extension of the path `p`.
pub fn extension_of(p: &str) -> (r: Option<String>)
    ensures
        r matches Some(s) ==> extension(p@) == Some(s@),
        r is None ==> extension(p@) is None,
{
    match file_name_of(p) {
        None => None,
        Some(name) => {
            let v = chars_of(name.as_str());
            let mut k = v.len();
            assert(v@.take(k as int) =~= v@);
            while k > 0 && v[k - 1] != '.'
                invariant
                    k <= v@.len(),
                    v@ == name@,
                    last_index_of(v@, '.') == last_index_of(v@.take(k as int), '.'),
                decreases k,
            {
                assert(v@.take(k as int).drop_last() =~= v@.take(k - 1));
                k = k - 1;
            }
            if k == 0 {
                return None;
            }
            assert(v@.take(k as int).last() == '.');
            if k == 1 {
                return None;
            }
            let mut ext: Vec<char> = Vec::new();
            let mut j = k;
            while j < v.len()
                invariant
                    k <= j <= v@.len(),
                    ext@ == v@.subrange(k as int, j as int),
                decreases v@.len() - j,
            {
                ext.push(v[j]);
                assert(v@.subrange(k as int, j as int).push(v@[j as int]) =~= v@.subrange(
                    k as int,
                    j + 1,
                ));
                j = j + 1;
            }
            Some(string_from(ext.as_slice()))
        },
    }
}

} // verus!
