use vstd::prelude::*;

verus! {

/// Position of the first `c` at or after `k`, or `s.len()` when there is none.
pub open spec fn index_from(s: Seq<char>, k: int, c: char) -> int
    decreases s.len() - k,
{
    if k >= s.len() {
        s.len() as int
    } else if s[k] == c {
        k
    } else {
        index_from(s, k + 1, c)
    }
}

pub proof fn lemma_index_from_bounds(s: Seq<char>, k: int, c: char)
    requires
        0 <= k <= s.len(),
    ensures
        k <= index_from(s, k, c) <= s.len(),
        index_from(s, k, c) < s.len() ==> s[index_from(s, k, c)] == c,
        forall|j: int| k <= j < index_from(s, k, c) ==> s[j] != c,
    decreases s.len() - k,
{
    if k < s.len() && s[k] != c {
        lemma_index_from_bounds(s, k + 1, c);
    }
}

proof fn lemma_index_first(s: Seq<char>, k: int, i: int, c: char)
    requires
        0 <= k <= i <= s.len(),
        forall|j: int| k <= j < i ==> s[j] != c,
        i == s.len() || s[i] == c,
    ensures
        index_from(s, k, c) == i,
    decreases i - k,
{
    if k < i {
        lemma_index_first(s, k + 1, i, c);
    }
}

/// Position of the first `c` in `v`, or its length (`str::find` with a char).
pub fn first_index(v: &Vec<char>, c: char) -> (r: usize)
    ensures
        r == index_from(v@, 0, c),
        r <= v.len(),
{
    let mut k: usize = 0;
    while k < v.len() && v[k] != c
        invariant
            k <= v.len(),
            forall|j: int| 0 <= j < k ==> v@[j] != c,
        decreases v.len() - k,
    {
        k = k + 1;
    }
    proof {
        lemma_index_first(v@, 0, k as int, c);
    }
    k
}

/// The pieces of `s` between occurrences of `c` (`str::split` with a char):
/// always at least one piece, empty pieces kept.
pub open spec fn split_on(s: Seq<char>, c: char) -> Seq<Seq<char>>
    decreases s.len(),
{
    let i = index_from(s, 0, c);
    if i >= s.len() || i < 0 {
        seq![s]
    } else {
        seq![s.take(i)] + split_on(s.skip(i + 1), c)
    }
}

/// The pieces of `s` between occurrences of `c` (see [`split_on`]).
pub fn split_chars(s: &Vec<char>, c: char) -> (r: Vec<Vec<char>>)
    ensures
        r@.map_values(|p: Vec<char>| p@) == split_on(s@, c),
        r.len() >= 1,
{
    let n = s.len();
    let mut r: Vec<Vec<char>> = Vec::new();
    let mut cur: Vec<char> = Vec::new();
    let mut start: usize = 0;
    let mut k: usize = 0;
    assert(s@.skip(0) =~= s@);
    while k < n
        invariant
            n == s.len(),
            start <= k <= n,
            cur@ == s@.subrange(start as int, k as int),
            forall|j: int| start <= j < k ==> s@[j] != c,
            split_on(s@, c) == r@.map_values(|p: Vec<char>| p@) + split_on(s@.skip(start as int), c),
        decreases n - k,
    {
        if s[k] == c {
            proof {
                let t = s@.skip(start as int);
                assert forall|j: int| 0 <= j < k - start implies t[j] != c by {
                    assert(t[j] == s@[start + j]);
                }
                assert(t[k - start] == s@[k as int]);
                lemma_index_first(t, 0, k - start, c);
                assert(t.take(k - start) =~= cur@);
                assert(t.skip(k - start + 1) =~= s@.skip(k + 1));
            }
            let ghost prev = r@;
            r.push(cur);
            assert(r@.map_values(|p: Vec<char>| p@) =~= prev.map_values(|p: Vec<char>| p@).push(
                s@.subrange(start as int, k as int),
            ));
            cur = Vec::new();
            start = k + 1;
            assert(cur@ =~= s@.subrange(start as int, start as int));
        } else {
            cur.push(s[k]);
            assert(cur@ =~= s@.subrange(start as int, k + 1));
        }
        k = k + 1;
    }
    proof {
        let t = s@.skip(start as int);
        assert forall|j: int| 0 <= j < n - start implies t[j] != c by {
            assert(t[j] == s@[start + j]);
        }
        lemma_index_first(t, 0, n - start, c);
        assert(t =~= cur@);
    }
    let ghost prev = r@;
    r.push(cur);
    assert(r@.map_values(|p: Vec<char>| p@) =~= prev.map_values(|p: Vec<char>| p@).push(
        s@.skip(start as int),
    ));
    r
}

/// Every `from` replaced by `to`.
pub open spec fn replace_char(s: Seq<char>, from: char, to: char) -> Seq<char> {
    s.map_values(|x: char| if x == from { to } else { x })
}

pub fn replace_char_exec(s: &Vec<char>, from: char, to: char) -> (r: Vec<char>)
    ensures
        r@ == replace_char(s@, from, to),
{
    let mut r: Vec<char> = Vec::new();
    let mut i: usize = 0;
    while i < s.len()
        invariant
            i <= s.len(),
            r@ == s@.take(i as int).map_values(|x: char| if x == from { to } else { x }),
        decreases s.len() - i,
    {
        let x = s[i];
        r.push(if x == from { to } else { x });
        assert(r@ =~= s@.take(i + 1).map_values(|x: char| if x == from { to } else { x }));
        i = i + 1;
    }
    assert(s@.take(s.len() as int) =~= s@);
    r
}

} // verus!
