use vstd::prelude::*;
use crate::helpers::trim_start_spec;
use crate::strs::{char_is_white, is_white, occurs_at, occurs_at_exec};

verus! {

// ---------------------------------------------------------------------------
// Trimming
// ---------------------------------------------------------------------------

/// `s` without its trailing whitespace (`str::trim_end`).
pub open spec fn trim_end_spec(s: Seq<char>) -> Seq<char>
    decreases s.len(),
{
    if s.len() > 0 && is_white(s.last()) {
        trim_end_spec(s.drop_last())
    } else {
        s
    }
}

/// `s` without leading or trailing whitespace (`str::trim`).
pub open spec fn trim_spec(s: Seq<char>) -> Seq<char> {
    trim_end_spec(trim_start_spec(s))
}

/// `s` without its leading copies of `c` (`str::trim_start_matches` with a char).
pub open spec fn trim_start_char(s: Seq<char>, c: char) -> Seq<char>
    decreases s.len(),
{
    if s.len() > 0 && s[0] == c {
        trim_start_char(s.drop_first(), c)
    } else {
        s
    }
}

/// `s` without its trailing copies of `c` (`str::trim_end_matches` with a char).
pub open spec fn trim_end_char(s: Seq<char>, c: char) -> Seq<char>
    decreases s.len(),
{
    if s.len() > 0 && s.last() == c {
        trim_end_char(s.drop_last(), c)
    } else {
        s
    }
}

pub fn trim_start_chars(v: &Vec<char>) -> (r: Vec<char>)
    ensures
        r@ == trim_start_spec(v@),
{
    let mut i: usize = 0;
    assert(v@.skip(0) =~= v@);
    while i < v.len() && char_is_white(v[i])
        invariant
            i <= v.len(),
            trim_start_spec(v@) == trim_start_spec(v@.skip(i as int)),
        decreases v.len() - i,
    {
        assert(v@.skip(i as int).drop_first() =~= v@.skip(i + 1));
        i = i + 1;
    }
    let r = slice_chars(v, i, v.len());
    assert(r@ =~= v@.skip(i as int));
    r
}

pub fn trim_end_chars(v: &Vec<char>) -> (r: Vec<char>)
    ensures
        r@ == trim_end_spec(v@),
{
    let mut j: usize = v.len();
    assert(v@.take(j as int) =~= v@);
    while j > 0 && char_is_white(v[j - 1])
        invariant
            j <= v.len(),
            trim_end_spec(v@) == trim_end_spec(v@.take(j as int)),
        decreases j,
    {
        assert(v@.take(j as int).drop_last() =~= v@.take(j - 1));
        j = j - 1;
    }
    let r = slice_chars(v, 0, j);
    assert(r@ =~= v@.take(j as int));
    r
}

/// `v` trimmed at both ends.
pub fn trim_chars(v: &Vec<char>) -> (r: Vec<char>)
    ensures
        r@ == trim_spec(v@),
{
    let a = trim_start_chars(v);
    trim_end_chars(&a)
}

pub fn trim_start_char_exec(v: &Vec<char>, c: char) -> (r: Vec<char>)
    ensures
        r@ == trim_start_char(v@, c),
{
    let mut i: usize = 0;
    assert(v@.skip(0) =~= v@);
    while i < v.len() && v[i] == c
        invariant
            i <= v.len(),
            trim_start_char(v@, c) == trim_start_char(v@.skip(i as int), c),
        decreases v.len() - i,
    {
        assert(v@.skip(i as int).drop_first() =~= v@.skip(i + 1));
        i = i + 1;
    }
    let r = slice_chars(v, i, v.len());
    assert(r@ =~= v@.skip(i as int));
    r
}

pub fn trim_end_char_exec(v: &Vec<char>, c: char) -> (r: Vec<char>)
    ensures
        r@ == trim_end_char(v@, c),
{
    let mut j: usize = v.len();
    assert(v@.take(j as int) =~= v@);
    while j > 0 && v[j - 1] == c
        invariant
            j <= v.len(),
            trim_end_char(v@, c) == trim_end_char(v@.take(j as int), c),
        decreases j,
    {
        assert(v@.take(j as int).drop_last() =~= v@.take(j - 1));
        j = j - 1;
    }
    let r = slice_chars(v, 0, j);
    assert(r@ =~= v@.take(j as int));
    r
}

/// The characters `v[lo..hi]`.
pub fn slice_chars(v: &Vec<char>, lo: usize, hi: usize) -> (r: Vec<char>)
    requires
        lo <= hi <= v.len(),
    ensures
        r@ == v@.subrange(lo as int, hi as int),
{
    let mut r: Vec<char> = Vec::new();
    let mut i: usize = lo;
    while i < hi
        invariant
            lo <= i <= hi,
            hi <= v.len(),
            r@ == v@.subrange(lo as int, i as int),
        decreases hi - i,
    {
        r.push(v[i]);
        assert(r@ =~= v@.subrange(lo as int, i + 1));
        i = i + 1;
    }
    r
}

// ---------------------------------------------------------------------------
// Finding substrings
// ---------------------------------------------------------------------------

/// The first position at or after `i` where `n` occurs in `h`, or -1.
pub open spec fn first_occ_from(h: Seq<char>, n: Seq<char>, i: int) -> int
    decreases h.len() + 1 - i,
{
    if i < 0 || i > h.len() || i + n.len() > h.len() {
        -1
    } else if occurs_at(h, n, i) {
        i
    } else {
        first_occ_from(h, n, i + 1)
    }
}

/// The first position where `n` occurs in `h`, or -1.
pub open spec fn first_occ(h: Seq<char>, n: Seq<char>) -> int {
    first_occ_from(h, n, 0)
}

/// The last position at or before `i` where `n` occurs in `h`, or -1.
pub open spec fn last_occ_upto(h: Seq<char>, n: Seq<char>, i: int) -> int
    decreases i + 1,
{
    if i < 0 {
        -1
    } else if occurs_at(h, n, i) {
        i
    } else {
        last_occ_upto(h, n, i - 1)
    }
}

/// The last position where `n` occurs in `h`, or -1.
pub open spec fn last_occ(h: Seq<char>, n: Seq<char>) -> int {
    last_occ_upto(h, n, h.len() - n.len())
}

proof fn lemma_first_occ_range(h: Seq<char>, n: Seq<char>, i: int)
    requires
        0 <= i,
    ensures
        first_occ_from(h, n, i) == -1 || (i <= first_occ_from(h, n, i) && first_occ_from(h, n, i) + n.len() <= h.len()),
    decreases h.len() + 1 - i,
{
    if !(i > h.len() || i + n.len() > h.len()) && !occurs_at(h, n, i) {
        lemma_first_occ_range(h, n, i + 1);
    }
}

proof fn lemma_last_occ_range(h: Seq<char>, n: Seq<char>, i: int)
    requires
        i + n.len() <= h.len(),
    ensures
        last_occ_upto(h, n, i) == -1 || (0 <= last_occ_upto(h, n, i) <= i),
    decreases i + 1,
{
    if i >= 0 && !occurs_at(h, n, i) {
        lemma_last_occ_range(h, n, i - 1);
    }
}

/// Where `n` first occurs in `h` (see [`first_occ`]).
pub fn find_first(h: &Vec<char>, n: &Vec<char>) -> (r: Option<usize>)
    ensures
        match r {
            Some(p) => first_occ(h@, n@) == p && p + n.len() <= h.len(),
            None => first_occ(h@, n@) == -1,
        },
{
    if n.len() == 0 {
        assert(h@.subrange(0, 0) =~= n@);
        return Some(0);
    }
    let mut i: usize = 0;
    while i <= h.len() && n.len() <= h.len() - i
        invariant
            n.len() >= 1,
            i <= h.len(),
            first_occ(h@, n@) == first_occ_from(h@, n@, i as int),
        decreases h.len() + 1 - i,
    {
        if occurs_at_exec(h, n, i) {
            return Some(i);
        }
        i = i + 1;
    }
    None
}

/// Where `n` last occurs in `h` (see [`last_occ`]).
pub fn find_last(h: &Vec<char>, n: &Vec<char>) -> (r: Option<usize>)
    ensures
        match r {
            Some(p) => last_occ(h@, n@) == p && p + n.len() <= h.len(),
            None => last_occ(h@, n@) == -1,
        },
{
    if n.len() > h.len() {
        return None;
    }
    let mut i: usize = h.len() - n.len();
    loop
        invariant
            n.len() <= h.len(),
            i + n.len() <= h.len(),
            last_occ(h@, n@) == last_occ_upto(h@, n@, i as int),
        decreases i,
    {
        if occurs_at_exec(h, n, i) {
            return Some(i);
        }
        if i == 0 {
            assert(last_occ_upto(h@, n@, -1) == -1);
            return None;
        }
        i = i - 1;
    }
}

} // verus!
