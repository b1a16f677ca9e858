//! Character-level string helpers: equality, search, suffix stripping.
//!
//! All functions here work on `&str` values through their `Seq<char>` views,
//! so the rest of the library can state its contracts over character
//! sequences.

use vstd::prelude::*;
use vstd::string::StrSliceExecFns;
use vstd::string::StringExecFns;

verus! {

/// `t` with every trailing occurrence of `c` removed.
pub open spec fn strip_trailing(t: Seq<char>, c: char) -> Seq<char>
    decreases t.len(),
{
    if t.len() > 0 && t.last() == c {
        strip_trailing(t.drop_last(), c)
    } else {
        t
    }
}

/// Character-by-character equality of two string slices.
pub fn str_eq(a: &str, b: &str) -> (r: bool)
    ensures
        r == (a@ == b@),
{
    let alen = a.unicode_len();
    let blen = b.unicode_len();
    if alen != blen {
        return false;
    }
    let mut i: usize = 0;
    while i < alen
        invariant
            alen == a@.len(),
            alen == b@.len(),
            i <= alen,
            forall|j: int| 0 <= j < i ==> a@[j] == b@[j],
        decreases alen - i,
    {
        if a.get_char(i) != b.get_char(i) {
            return false;
        }
        i = i + 1;
    }
    proof {
        assert(a@ =~= b@);
    }
    true
}

/// Whether `t` contains the character `c` anywhere.
pub fn contains_char(t: &str, c: char) -> (r: bool)
    ensures
        r == t@.contains(c),
{
    let len = t.unicode_len();
    let mut i: usize = 0;
    while i < len
        invariant
            len == t@.len(),
            i <= len,
            forall|j: int| 0 <= j < i ==> t@[j] != c,
        decreases len - i,
    {
        if t.get_char(i) == c {
            proof {
                assert(t@[i as int] == c);
            }
            return true;
        }
        i = i + 1;
    }
    false
}

/// Index of the first occurrence of `c` in `t`, if any.
pub fn find_char(t: &str, c: char) -> (r: Option<usize>)
    ensures
        match r {
            Some(i) => i < t@.len() && t@[i as int] == c && (forall|j: int|
                0 <= j < i ==> t@[j] != c),
            None => !t@.contains(c),
        },
{
    let len = t.unicode_len();
    let mut i: usize = 0;
    while i < len
        invariant
            len == t@.len(),
            i <= len,
            forall|j: int| 0 <= j < i ==> t@[j] != c,
        decreases len - i,
    {
        if t.get_char(i) == c {
            return Some(i);
        }
        i = i + 1;
    }
    None
}

/// Whether the last character of `t` is `c`.
pub fn ends_with_char(t: &str, c: char) -> (r: bool)
    ensures
        r == (t@.len() > 0 && t@.last() == c),
{
    let len = t.unicode_len();
    if len == 0 {
        return false;
    }
    t.get_char(len - 1) == c
}

/// A copy of `t` with every trailing occurrence of `c` removed.
pub fn strip_trailing_run(t: &str, c: char) -> (r: String)
    ensures
        r@ == strip_trailing(t@, c),
{
    let len = t.unicode_len();
    let mut cut: usize = len;
    proof {
        assert(t@.subrange(0, len as int) =~= t@);
    }
    while cut > 0 && t.get_char(cut - 1) == c
        invariant
            len == t@.len(),
            cut <= len,
            strip_trailing(t@, c) == strip_trailing(t@.subrange(0, cut as int), c),
        decreases cut,
    {
        proof {
            let pre = t@.subrange(0, cut as int);
            assert(pre.last() == c);
            assert(pre.drop_last() =~= t@.subrange(0, cut as int - 1));
        }
        cut = cut - 1;
    }
    proof {
        let pre = t@.subrange(0, cut as int);
        assert(strip_trailing(pre, c) == pre);
    }
    let s = t.substring_char(0, cut);
    String::from_str(s)
}

} // verus!
