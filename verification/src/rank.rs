use vstd::prelude::*;
use crate::lex::{
    lemma_lex_asymmetric, lemma_lex_irreflexive, lemma_lex_total, lemma_lex_transitive, lex_compare,
    lex_lt,
};

verus! {

/// A sort key: `hi` descending, then `lo` ascending, then `a` and `b` in
/// lexicographic order. Ties keep the original order, as a stable sort does.
pub struct RankKey {
    pub hi: usize,
    pub lo: usize,
    pub a: Vec<char>,
    pub b: Vec<char>,
}

/// `x` (at original position `i`) comes before `y` (at position `j`).
pub open spec fn key_before(x: RankKey, i: int, y: RankKey, j: int) -> bool {
    x.hi > y.hi || (x.hi == y.hi && (x.lo < y.lo || (x.lo == y.lo && (lex_lt(x.a@, y.a@) || (
    x.a@ == y.a@ && (lex_lt(x.b@, y.b@) || (x.b@ == y.b@ && i < j)))))))
}

pub open spec fn kb(keys: Seq<RankKey>, i: usize, j: usize) -> bool {
    key_before(keys[i as int], i as int, keys[j as int], j as int)
}

/// `order` lists positions of `keys` in strictly increasing key order.
pub open spec fn sorted_by(keys: Seq<RankKey>, order: Seq<usize>) -> bool {
    forall|p: int, q: int| 0 <= p < q < order.len() ==> kb(keys, order[p], order[q])
}

/// `order` holds each position `0..n` exactly once.
pub open spec fn is_permutation(order: Seq<usize>, n: nat) -> bool {
    &&& order.len() == n
    &&& forall|p: int| 0 <= p < order.len() ==> order[p] < n
    &&& forall|x: usize| x < n ==> order.contains(x)
    &&& forall|p: int, q: int| 0 <= p < q < order.len() ==> order[p] != order[q]
}

pub proof fn lemma_key_irreflexive(x: RankKey, i: int)
    ensures
        !key_before(x, i, x, i),
{
    lemma_lex_irreflexive(x.a@);
    lemma_lex_irreflexive(x.b@);
}

pub proof fn lemma_key_transitive(x: RankKey, i: int, y: RankKey, j: int, z: RankKey, k: int)
    requires
        key_before(x, i, y, j),
        key_before(y, j, z, k),
    ensures
        key_before(x, i, z, k),
{
    if lex_lt(x.a@, y.a@) && lex_lt(y.a@, z.a@) {
        lemma_lex_transitive(x.a@, y.a@, z.a@);
    }
    if lex_lt(x.b@, y.b@) && lex_lt(y.b@, z.b@) {
        lemma_lex_transitive(x.b@, y.b@, z.b@);
    }
}

pub proof fn lemma_key_total(x: RankKey, i: int, y: RankKey, j: int)
    requires
        i != j,
    ensures
        key_before(x, i, y, j) || key_before(y, j, x, i),
{
    lemma_lex_total(x.a@, y.a@);
    lemma_lex_total(x.b@, y.b@);
}

pub proof fn lemma_key_asymmetric(x: RankKey, i: int, y: RankKey, j: int)
    requires
        key_before(x, i, y, j),
    ensures
        !key_before(y, j, x, i),
{
    if key_before(y, j, x, i) {
        lemma_key_transitive(x, i, y, j, x, i);
        lemma_key_irreflexive(x, i);
    }
}

/// Does the key at position `i` come before the key at position `j`?
pub fn before(keys: &Vec<RankKey>, i: usize, j: usize) -> (r: bool)
    requires
        i < keys.len(),
        j < keys.len(),
    ensures
        r == kb(keys@, i, j),
{
    let x = &keys[i];
    let y = &keys[j];
    if x.hi != y.hi {
        return x.hi > y.hi;
    }
    if x.lo != y.lo {
        return x.lo < y.lo;
    }
    let c = lex_compare(&x.a, &y.a);
    if c != 0 {
        proof {
            if c > 0 {
                lemma_lex_asymmetric(y.a@, x.a@);
            }
        }
        return c < 0;
    }
    let d = lex_compare(&x.b, &y.b);
    if d != 0 {
        proof {
            if d > 0 {
                lemma_lex_asymmetric(y.b@, x.b@);
            }
        }
        return d < 0;
    }
    i < j
}

/// Positions `0..keys.len()` in key order (a stable sort).
pub fn sort_by_rank(keys: &Vec<RankKey>) -> (order: Vec<usize>)
    ensures
        sorted_by(keys@, order@),
        is_permutation(order@, keys.len() as nat),
{
    let mut order: Vec<usize> = Vec::new();
    let mut i: usize = 0;
    while i < keys.len()
        invariant
            i <= keys.len(),
            sorted_by(keys@, order@),
            is_permutation(order@, i as nat),
        decreases keys.len() - i,
    {
        // Binary search for the first position whose key comes after key `i`.
        let mut lo: usize = 0;
        let mut hi: usize = order.len();
        while lo < hi
            invariant
                i < keys.len(),
                0 <= lo <= hi <= order.len(),
                is_permutation(order@, i as nat),
                sorted_by(keys@, order@),
                forall|p: int| 0 <= p < lo ==> kb(keys@, order@[p], i),
                forall|p: int| hi <= p < order.len() ==> kb(keys@, i, order@[p]),
            decreases hi - lo,
        {
            let mid = lo + (hi - lo) / 2;
            if before(keys, i, order[mid]) {
                proof {
                    assert forall|p: int| mid <= p < order.len() implies kb(keys@, i, order@[p]) by {
                        if p > mid {
                            assert(kb(keys@, order@[mid as int], order@[p]));
                            lemma_key_transitive(
                                keys@[i as int],
                                i as int,
                                keys@[order@[mid as int] as int],
                                order@[mid as int] as int,
                                keys@[order@[p] as int],
                                order@[p] as int,
                            );
                        }
                    }
                }
                hi = mid;
            } else {
                proof {
                    lemma_key_total(
                        keys@[i as int],
                        i as int,
                        keys@[order@[mid as int] as int],
                        order@[mid as int] as int,
                    );
                    assert forall|p: int| 0 <= p <= mid implies kb(keys@, order@[p], i) by {
                        if p < mid {
                            assert(kb(keys@, order@[p], order@[mid as int]));
                            lemma_key_transitive(
                                keys@[order@[p] as int],
                                order@[p] as int,
                                keys@[order@[mid as int] as int],
                                order@[mid as int] as int,
                                keys@[i as int],
                                i as int,
                            );
                        }
                    }
                }
                lo = mid + 1;
            }
        }
        let ghost old_order = order@;
        order.insert(lo, i);
        proof {
            assert(order@ =~= old_order.insert(lo as int, i));
            assert forall|p: int, q: int| 0 <= p < q < order@.len() implies kb(
                keys@,
                order@[p],
                order@[q],
            ) by {
                if q < lo {
                } else if q == lo {
                } else if p < lo {
                    lemma_key_transitive(
                        keys@[order@[p] as int],
                        order@[p] as int,
                        keys@[i as int],
                        i as int,
                        keys@[order@[q] as int],
                        order@[q] as int,
                    );
                } else if p == lo {
                } else {
                }
            }
            assert forall|x: usize| x < i + 1 implies order@.contains(x) by {
                if x == i {
                    assert(order@[lo as int] == i);
                } else {
                    assert(old_order.contains(x));
                    let k = choose|k: int| 0 <= k < old_order.len() && old_order[k] == x;
                    assert(old_order[k] == x);
                    if k < lo {
                        assert(order@[k] == x);
                    } else {
                        assert(order@[k + 1] == x);
                    }
                }
            }
            assert forall|p: int, q: int| 0 <= p < q < order@.len() implies order@[p]
                != order@[q] by {
                lemma_key_irreflexive(keys@[order@[p] as int], order@[p] as int);
            }
        }
        i = i + 1;
    }
    order
}


/// The positions of the first `limit` keys in key order.
pub fn top_ranked(keys: &Vec<RankKey>, limit: usize) -> (r: Vec<usize>)
    ensures
        r@.len() <= limit,
        r@.len() == limit || r@.len() == keys@.len(),
        forall|i: int| 0 <= i < r@.len() ==> r@[i] < keys@.len(),
        forall|i: int, j: int| 0 <= i < j < r@.len() ==> kb(keys@, r@[i], r@[j]),
        forall|t: usize|
            t < keys@.len() ==> r@.contains(t) || (r@.len() == limit && forall|i: int| 0 <= i < r@.len() ==> kb(keys@, r@[i], t)),
{
    let order = sort_by_rank(keys);
    let m = if limit < keys.len() {
        limit
    } else {
        keys.len()
    };
    let mut r: Vec<usize> = Vec::new();
    let mut p: usize = 0;
    while p < m
        invariant
            p <= m,
            m <= keys@.len(),
            m <= limit,
            m == limit || m == keys@.len(),
            sorted_by(keys@, order@),
            is_permutation(order@, keys@.len() as nat),
            r@ == order@.take(p as int),
        decreases m - p,
    {
        r.push(order[p]);
        assert(r@ =~= order@.take(p + 1));
        p = p + 1;
    }
    proof {
        assert forall|t: usize|
            t < keys@.len() implies r@.contains(t) || (r@.len() == limit && forall|i: int| 0 <= i < r@.len() ==> kb(keys@, r@[i], t)) by {
            assert(order@.contains(t));
            let q = choose|q: int| 0 <= q < order@.len() && order@[q] == t;
            if q < m {
                assert(r@[q] == t);
            } else {
                assert forall|i: int| 0 <= i < r@.len() implies kb(keys@, r@[i], t) by {
                    assert(r@[i] == order@[i]);
                }
            }
        }
    }
    r
}

} // verus!
