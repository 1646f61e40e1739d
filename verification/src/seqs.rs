use vstd::prelude::*;

verus! {

/// Number of elements of `s` that satisfy `p`.
pub open spec fn count_where<T>(s: Seq<T>, p: spec_fn(T) -> bool) -> nat
    decreases s.len(),
{
    if s.len() == 0 {
        0
    } else {
        count_where(s.drop_last(), p) + if p(s.last()) {
            1nat
        } else {
            0nat
        }
    }
}

pub proof fn lemma_count_where_step<T>(s: Seq<T>, p: spec_fn(T) -> bool, i: int)
    requires
        0 <= i < s.len(),
    ensures
        count_where(s.take(i + 1), p) == count_where(s.take(i), p) + if p(s[i]) {
            1nat
        } else {
            0nat
        },
{
    assert(s.take(i + 1).drop_last() =~= s.take(i));
}

pub proof fn lemma_count_where_bound<T>(s: Seq<T>, p: spec_fn(T) -> bool)
    ensures
        count_where(s, p) <= s.len(),
    decreases s.len(),
{
    if s.len() > 0 {
        lemma_count_where_bound(s.drop_last(), p);
    }
}

/// Indices `i < n` (in increasing order) whose element satisfies `p`.
pub open spec fn select<T>(s: Seq<T>, n: int, p: spec_fn(T) -> bool) -> Seq<usize>
    decreases n,
{
    if n <= 0 {
        Seq::empty()
    } else if p(s[n - 1]) {
        select(s, n - 1, p).push((n - 1) as usize)
    } else {
        select(s, n - 1, p)
    }
}

pub proof fn lemma_select_members<T>(s: Seq<T>, n: int, p: spec_fn(T) -> bool)
    requires
        0 <= n <= s.len(),
        s.len() <= usize::MAX,
    ensures
        forall|k: int|
            0 <= k < select(s, n, p).len() ==> (select(s, n, p)[k] as int) < n && p(
                s[select(s, n, p)[k] as int],
            ),
        forall|i: int| 0 <= i < n && p(s[i]) ==> select(s, n, p).contains(i as usize),
        forall|a: int, b: int|
            0 <= a < b < select(s, n, p).len() ==> select(s, n, p)[a] < select(s, n, p)[b],
    decreases n,
{
    if n > 0 {
        lemma_select_members(s, n - 1, p);
        let prev = select(s, n - 1, p);
        if p(s[n - 1]) {
            assert(select(s, n, p) == prev.push((n - 1) as usize));
            assert(((n - 1) as usize) as int == n - 1);
            assert forall|i: int| 0 <= i < n && p(s[i]) implies select(s, n, p).contains(
                i as usize,
            ) by {
                if i == n - 1 {
                    assert(select(s, n, p)[prev.len() as int] == i as usize);
                } else {
                    let k = choose|k: int| 0 <= k < prev.len() && prev[k] == i as usize;
                    assert(select(s, n, p)[k] == i as usize);
                }
            }
        }
    }
}

/// At most `n` indices are selected below `n`.
pub proof fn lemma_select_bound<T>(s: Seq<T>, n: int, p: spec_fn(T) -> bool)
    requires
        0 <= n,
    ensures
        select(s, n, p).len() <= n,
    decreases n,
{
    if n > 0 {
        lemma_select_bound(s, n - 1, p);
    }
}

/// The `(name, count)` pairs whose count is positive, in the order given.
pub open spec fn tally(names: Seq<Seq<char>>, counts: Seq<nat>) -> Seq<(Seq<char>, nat)>
    decreases names.len(),
{
    if names.len() == 0 || counts.len() == 0 {
        Seq::empty()
    } else {
        let rest = tally(names.drop_last(), counts.drop_last());
        if counts.last() > 0 {
            rest.push((names.last(), counts.last()))
        } else {
            rest
        }
    }
}

/// `(String, usize)` pairs seen as `(Seq<char>, nat)` pairs.
pub open spec fn pairs_view(v: Seq<(String, usize)>) -> Seq<(Seq<char>, nat)> {
    v.map_values(|p: (String, usize)| (p.0@, p.1 as nat))
}

pub open spec fn strings_view(v: Seq<String>) -> Seq<Seq<char>> {
    v.map_values(|s: String| s@)
}

pub open spec fn nats_view(v: Seq<usize>) -> Seq<nat> {
    v.map_values(|c: usize| c as nat)
}

/// The pairs `(names[i], counts[i])` with a positive count, in order.
pub fn tally_exec(names: &Vec<String>, counts: &Vec<usize>) -> (r: Vec<(String, usize)>)
    requires
        names.len() == counts.len(),
    ensures
        pairs_view(r@) == tally(strings_view(names@), nats_view(counts@)),
{
    let mut r: Vec<(String, usize)> = Vec::new();
    let mut i: usize = 0;
    while i < names.len()
        invariant
            names.len() == counts.len(),
            i <= names.len(),
            pairs_view(r@) == tally(
                strings_view(names@).take(i as int),
                nats_view(counts@).take(i as int),
            ),
        decreases names.len() - i,
    {
        let ghost nv = strings_view(names@);
        let ghost cv = nats_view(counts@);
        assert(nv.take(i + 1).drop_last() =~= nv.take(i as int));
        assert(cv.take(i + 1).drop_last() =~= cv.take(i as int));
        if counts[i] > 0 {
            let ghost prev = r@;
            let name = names[i].clone();
            r.push((name, counts[i]));
            assert(pairs_view(r@) =~= pairs_view(prev).push(
                (names@[i as int]@, counts@[i as int] as nat),
            ));
        }
        i = i + 1;
    }
    assert(strings_view(names@).take(names.len() as int) =~= strings_view(names@));
    assert(nats_view(counts@).take(names.len() as int) =~= nats_view(counts@));
    r
}

} // verus!
