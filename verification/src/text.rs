//! Character-sequence helpers shared by the directive resolver and the
//! cache codec: whitespace trimming, range copies and equality of
//! character vectors.

use vstd::prelude::*;

verus! {

/// The whitespace characters recognized around a directive path: the
/// four ASCII ones, a deliberate choice — the directive syntax is
/// ASCII, and any other character, Unicode whitespace too, counts as
/// part of the name.
pub open spec fn is_space(c: char) -> bool {
    c == ' ' || c == '\t' || c == '\n' || c == '\r'
}

/// `s` without its leading whitespace.
pub open spec fn trim_start(s: Seq<char>) -> Seq<char>
    decreases s.len(),
{
    if s.len() > 0 && is_space(s[0]) {
        trim_start(s.drop_first())
    } else {
        s
    }
}

/// `s` without its trailing whitespace.
pub open spec fn trim_end(s: Seq<char>) -> Seq<char>
    decreases s.len(),
{
    if s.len() > 0 && is_space(s.last()) {
        trim_end(s.drop_last())
    } else {
        s
    }
}

/// `s` without leading and trailing whitespace.
pub open spec fn trim(s: Seq<char>) -> Seq<char> {
    trim_end(trim_start(s))
}

/// Index of the first occurrence of `c` in `s` at or after `from`.
pub open spec fn find_char(s: Seq<char>, c: char, from: int) -> Option<int>
    decreases s.len() - from,
{
    if from < 0 || from >= s.len() {
        None
    } else if s[from] == c {
        Some(from)
    } else {
        find_char(s, c, from + 1)
    }
}

/// A found index lies in `[from, s.len())`.
pub proof fn lemma_find_char_in_range(s: Seq<char>, c: char, from: int)
    ensures
        find_char(s, c, from) matches Some(j) ==> from <= j < s.len() && s[j] == c,
    decreases s.len() - from,
{
    if 0 <= from < s.len() && s[from] != c {
        lemma_find_char_in_range(s, c, from + 1);
    }
}

/// `find_char` returns the first occurrence.
pub proof fn lemma_find_char_some(s: Seq<char>, c: char, from: int, j: int)
    requires
        0 <= from <= j < s.len(),
        s[j] == c,
        forall|k: int| from <= k < j ==> s[k] != c,
    ensures
        find_char(s, c, from) == Some(j),
    decreases j - from,
{
    if from < j {
        lemma_find_char_some(s, c, from + 1, j);
    }
}

/// Without an occurrence there is nothing to find.
pub proof fn lemma_find_char_none(s: Seq<char>, c: char, from: int)
    requires
        forall|k: int| from <= k < s.len() ==> s[k] != c,
    ensures
        find_char(s, c, from) is None,
    decreases s.len() - from,
{
    if 0 <= from < s.len() {
        lemma_find_char_none(s, c, from + 1);
    }
}

pub fn space_char(c: char) -> (r: bool)
    ensures
        r == is_space(c),
{
    c == ' ' || c == '\t' || c == '\n' || c == '\r'
}

/// Copy `v[lo..hi]` into a fresh vector.
pub fn copy_range(v: &Vec<char>, lo: usize, hi: usize) -> (r: Vec<char>)
    requires
        lo <= hi <= v.len(),
    ensures
        r@ == v@.subrange(lo as int, hi as int),
{
    let mut r: Vec<char> = Vec::new();
    let mut i: usize = lo;
    while i < hi
        invariant
            lo <= i <= hi <= v.len(),
            r@ == v@.subrange(lo as int, i as int),
        decreases hi - i,
    {
        r.push(v[i]);
        proof {
            assert(r@ =~= v@.subrange(lo as int, i + 1 as int));
        }
        i = i + 1;
    }
    r
}

/// Copy `v[lo..hi]` with surrounding whitespace removed.
pub fn trimmed_copy(v: &Vec<char>, lo: usize, hi: usize) -> (r: Vec<char>)
    requires
        lo <= hi <= v.len(),
    ensures
        r@ == trim(v@.subrange(lo as int, hi as int)),
{
    let ghost orig = v@.subrange(lo as int, hi as int);
    let mut a: usize = lo;
    let mut b: usize = hi;
    while a < b && space_char(v[a])
        invariant
            lo <= a <= b <= hi <= v.len(),
            trim_start(orig) == trim_start(v@.subrange(a as int, b as int)),
        decreases b - a,
    {
        proof {
            let cur = v@.subrange(a as int, b as int);
            assert(cur.drop_first() =~= v@.subrange(a + 1 as int, b as int));
        }
        a = a + 1;
    }
    proof {
        let cur = v@.subrange(a as int, b as int);
        assert(trim_start(cur) == cur);
        assert(trim_start(orig) == cur);
    }
    let ghost started = v@.subrange(a as int, b as int);
    while a < b && space_char(v[b - 1])
        invariant
            lo <= a <= b <= hi <= v.len(),
            trim_end(started) == trim_end(v@.subrange(a as int, b as int)),
        decreases b - a,
    {
        proof {
            let cur = v@.subrange(a as int, b as int);
            assert(cur.drop_last() =~= v@.subrange(a as int, b - 1 as int));
        }
        b = b - 1;
    }
    proof {
        let cur = v@.subrange(a as int, b as int);
        assert(trim_end(cur) == cur);
        assert(trim(orig) == cur);
    }
    copy_range(v, a, b)
}

/// Character-wise equality of two vectors.
pub fn chars_eq(a: &Vec<char>, b: &Vec<char>) -> (r: bool)
    ensures
        r == (a@ == b@),
{
    if a.len() != b.len() {
        assert(a@ != b@);
        return false;
    }
    let mut i: usize = 0;
    while i < a.len()
        invariant
            i <= a.len(),
            a.len() == b.len(),
            forall|k: int| 0 <= k < i ==> a@[k] == b@[k],
        decreases a.len() - i,
    {
        if a[i] != b[i] {
            return false;
        }
        i = i + 1;
    }
    proof {
        assert(a@ =~= b@);
    }
    true
}

} // verus!
