use vstd::prelude::*;
use crate::strs::string_from_chars;
use crate::seqs::strings_view;
use crate::lex::{
    lemma_lex_asymmetric, lemma_lex_irreflexive, lemma_lex_total, lemma_lex_transitive, lex_compare,
    lex_lt,
};

verus! {

/// A set of strings kept as a strictly increasing list of character sequences.
pub struct StrSet {
    items: Vec<Vec<char>>,
}

impl StrSet {
    /// The members, in increasing order.
    pub closed spec fn elems(&self) -> Seq<Seq<char>> {
        self.items@.map_values(|v: Vec<char>| v@)
    }

    /// The members as a set.
    pub open spec fn members(&self) -> Set<Seq<char>> {
        self.elems().to_set()
    }

    /// The list is strictly increasing.
    pub closed spec fn wf(&self) -> bool {
        forall|i: int, j: int|
            0 <= i < j < self.elems().len() ==> lex_lt(self.elems()[i], self.elems()[j])
    }

    pub closed spec fn size(&self) -> nat {
        self.elems().len()
    }

    pub proof fn lemma_size(&self)
        requires
            self.wf(),
        ensures
            self.members().finite(),
            self.members().len() == self.size(),
    {
        let e = self.elems();
        assert(e.no_duplicates()) by {
            assert forall|i: int, j: int| 0 <= i < e.len() && 0 <= j < e.len() && i != j implies e[i]
                != e[j] by {
                if i < j {
                    if e[i] == e[j] {
                        lemma_lex_irreflexive(e[i]);
                    }
                } else {
                    if e[i] == e[j] {
                        lemma_lex_irreflexive(e[j]);
                    }
                }
            }
        }
        e.unique_seq_to_set();
        vstd::seq_lib::seq_to_set_is_finite(e);
    }


    /// The members are listed in strictly increasing order, once each.
    pub proof fn lemma_listing(&self)
        requires
            self.wf(),
        ensures
            self.listing().len() == self.size(),
            self.listing().to_set() == self.members(),
            forall|i: int, j: int| 0 <= i < j < self.listing().len() ==> lex_lt(self.listing()[i], self.listing()[j]),
    {
    }

    /// The members, in increasing order.
    pub closed spec fn listing(&self) -> Seq<Seq<char>> {
        self.elems()
    }

    /// The members as strings, in increasing order.
    pub fn to_strings(&self) -> (r: Vec<String>)
        ensures
            strings_view(r@) == self.listing(),
    {
        let mut r: Vec<String> = Vec::new();
        let mut i: usize = 0;
        while i < self.items.len()
            invariant
                i <= self.items.len(),
                strings_view(r@) == self.elems().take(i as int),
            decreases self.items.len() - i,
        {
            let st = string_from_chars(&self.items[i]);
            let ghost before = r@;
            assert(strings_view(before).len() == before.len());
            assert(before.len() == i);
            assert(self.elems()[i as int] == self.items@[i as int]@);
            r.push(st);
            assert(r@ == before.push(st));
            assert forall|k: int| 0 <= k < i + 1 implies #[trigger] strings_view(r@)[k] == self.elems().take(i + 1)[k] by {
                if k < i {
                    assert(r@[k] == before[k]);
                    assert(strings_view(before)[k] == self.elems().take(i as int)[k]);
                }
            }
            assert(strings_view(r@) =~= self.elems().take(i + 1));
            i = i + 1;
        }
        assert(self.elems().take(self.items.len() as int) =~= self.elems());
        r
    }

    /// Where `x` stands in the listing, if it is a member.
    pub fn position(&self, x: &Vec<char>) -> (r: Option<usize>)
        requires
            self.wf(),
        ensures
            match r {
                Some(p) => p < self.listing().len() && self.listing()[p as int] == x@,
                None => !self.members().contains(x@),
            },
    {
        let ghost e = self.elems();
        let p = self.lower_bound(x);
        if p < self.items.len() && lex_compare(&self.items[p], x) == 0 {
            return Some(p);
        }
        proof {
            if e.contains(x@) {
                let k = choose|k: int| 0 <= k < e.len() && e[k] == x@;
                lemma_lex_irreflexive(x@);
                if k > p {
                    assert(lex_lt(e[p as int], e[k]));
                    lemma_lex_total(e[p as int], x@);
                }
            }
        }
        None
    }

    /// Number of members.
    pub fn len(&self) -> (n: usize)
        ensures
            n == self.size(),
    {
        self.items.len()
    }

    /// The empty set.
    pub fn new() -> (s: StrSet)
        ensures
            s.wf(),
            s.members() == Set::<Seq<char>>::empty(),
            s.size() == 0,
    {
        let s = StrSet { items: Vec::new() };
        assert(s.elems().to_set() =~= Set::<Seq<char>>::empty());
        s
    }

    /// First position whose member does not sort before `x`.
    fn lower_bound(&self, x: &Vec<char>) -> (p: usize)
        requires
            self.wf(),
        ensures
            p <= self.elems().len(),
            forall|i: int| 0 <= i < p ==> lex_lt(self.elems()[i], x@),
            forall|i: int| p <= i < self.elems().len() ==> !lex_lt(self.elems()[i], x@),
    {
        let ghost e = self.elems();
        let mut lo: usize = 0;
        let mut hi: usize = self.items.len();
        while lo < hi
            invariant
                e == self.elems(),
                self.wf(),
                e.len() == self.items.len(),
                0 <= lo <= hi <= e.len(),
                forall|i: int| 0 <= i < lo ==> lex_lt(e[i], x@),
                forall|i: int| hi <= i < e.len() ==> !lex_lt(e[i], x@),
            decreases hi - lo,
        {
            let mid = lo + (hi - lo) / 2;
            assert(e[mid as int] == self.items@[mid as int]@);
            let c = lex_compare(&self.items[mid], x);
            if c < 0 {
                proof {
                    assert forall|i: int| 0 <= i <= mid implies lex_lt(e[i], x@) by {
                        if i < mid {
                            lemma_lex_transitive(e[i], e[mid as int], x@);
                        }
                    }
                }
                lo = mid + 1;
            } else {
                proof {
                    assert forall|i: int| mid <= i < e.len() implies !lex_lt(e[i], x@) by {
                        if i > mid && lex_lt(e[i], x@) {
                            lemma_lex_transitive(e[mid as int], e[i], x@);
                            if c == 0 {
                                lemma_lex_irreflexive(x@);
                            } else {
                                lemma_lex_asymmetric(x@, e[mid as int]);
                            }
                        }
                    }
                    if c == 0 {
                        lemma_lex_irreflexive(x@);
                    } else {
                        lemma_lex_asymmetric(x@, e[mid as int]);
                    }
                }
                hi = mid;
            }
        }
        lo
    }

    /// Is `x` a member?
    pub fn contains(&self, x: &Vec<char>) -> (b: bool)
        requires
            self.wf(),
        ensures
            b == self.members().contains(x@),
    {
        let ghost e = self.elems();
        let p = self.lower_bound(x);
        let found = if p < self.items.len() {
            assert(e[p as int] == self.items@[p as int]@);
            lex_compare(&self.items[p], x) == 0
        } else {
            false
        };
        proof {
            if found {
                assert(e.contains(x@));
            } else {
                if e.contains(x@) {
                    let k = choose|k: int| 0 <= k < e.len() && e[k] == x@;
                    lemma_lex_irreflexive(x@);
                    if k > p {
                        assert(lex_lt(e[p as int], e[k]));
                        lemma_lex_total(e[p as int], x@);
                    }
                }
            }
        }
        found
    }

    /// Adds `x`; returns whether it was new (`BTreeSet::insert`).
    pub fn insert(&mut self, x: Vec<char>) -> (added: bool)
        requires
            old(self).wf(),
        ensures
            final(self).wf(),
            final(self).members() == old(self).members().insert(x@),
            added == !old(self).members().contains(x@),
            final(self).size() == old(self).size() + if added {
                1nat
            } else {
                0nat
            },
    {
        if self.contains(&x) {
            proof {
                assert(self.members().insert(x@) =~= self.members());
            }
            return false;
        }
        let ghost e = self.elems();
        let p = self.lower_bound(&x);
        let ghost xv = x@;
        self.items.insert(p, x);
        proof {
            let e2 = self.elems();
            assert(e2 =~= e.insert(p as int, xv));
            assert forall|i: int, j: int| 0 <= i < j < e2.len() implies lex_lt(e2[i], e2[j]) by {
                if j == p {
                } else if i == p {
                    assert(e2[j] == e[j - 1]);
                    assert(!lex_lt(e[j - 1], xv));
                    lemma_lex_total(e[j - 1], xv);
                    if e[j - 1] == xv {
                        assert(e.contains(xv));
                    }
                } else if i < p && j > p {
                    assert(e2[j] == e[j - 1]);
                    lemma_lex_total(e[j - 1], xv);
                    if e[j - 1] == xv {
                        assert(e.contains(xv));
                    } else {
                        lemma_lex_transitive(e[i], xv, e[j - 1]);
                    }
                } else if i < p {
                } else {
                }
            }
            assert(e2.to_set() =~= e.to_set().insert(xv)) by {
                assert forall|y: Seq<char>| e2.to_set().contains(y) implies e.to_set().insert(xv).contains(y) by {
                    let k = choose|k: int| 0 <= k < e2.len() && e2[k] == y;
                    if k < p {
                        assert(e[k] == y);
                    } else if k > p {
                        assert(e[k - 1] == y);
                    }
                }
                assert forall|y: Seq<char>| e.to_set().insert(xv).contains(y) implies e2.to_set().contains(y) by {
                    if y == xv {
                        assert(e2[p as int] == xv);
                    } else {
                        let k = choose|k: int| 0 <= k < e.len() && e[k] == y;
                        if k < p {
                            assert(e2[k] == y);
                        } else {
                            assert(e2[k + 1] == y);
                        }
                    }
                }
            }
        }
        true
    }
}


impl StrSet {
    /// How many members the two sets share.
    pub fn common_count(&self, other: &StrSet) -> (n: usize)
        requires
            self.wf(),
            other.wf(),
        ensures
            n == self.members().intersect(other.members()).len(),
    {
        let ghost e = self.elems();
        let ghost om = other.members();
        let ghost mut acc: Set<Seq<char>> = Set::empty();
        let mut n: usize = 0;
        let mut i: usize = 0;
        assert(e.take(0).to_set() =~= Set::<Seq<char>>::empty());
        assert(acc =~= e.take(0).to_set().intersect(om));
        while i < self.items.len()
            invariant
                i <= self.items.len(),
                self.wf(),
                other.wf(),
                e == self.elems(),
                om == other.members(),
                acc == e.take(i as int).to_set().intersect(om),
                acc.finite(),
                n == acc.len(),
                n <= i,
            decreases self.items.len() - i,
        {
            let ghost x = e[i as int];
            assert(self.items@[i as int]@ == x);
            proof {
                let t1 = e.take(i + 1);
                let t0 = e.take(i as int);
                assert(t1.to_set() =~= t0.to_set().insert(x)) by {
                    assert forall|y: Seq<char>| t1.to_set().contains(y) <==> t0.to_set().insert(x).contains(y) by {
                        if t1.contains(y) {
                            let w = choose|w: int| 0 <= w < t1.len() && t1[w] == y;
                            if w < i {
                                assert(t0[w] == y);
                            }
                        }
                        if t0.contains(y) {
                            let w = choose|w: int| 0 <= w < t0.len() && t0[w] == y;
                            assert(t1[w] == y);
                        }
                        if y == x {
                            assert(t1[i as int] == y);
                        }
                    }
                }
                assert(!t0.to_set().contains(x)) by {
                    if t0.contains(x) {
                        let w = choose|w: int| 0 <= w < t0.len() && t0[w] == x;
                        assert(lex_lt(e[w], e[i as int]));
                        lemma_lex_irreflexive(x);
                    }
                }
            }
            if other.contains(&self.items[i]) {
                proof {
                    assert(acc.insert(x) =~= e.take(i + 1).to_set().intersect(om));
                    acc = acc.insert(x);
                }
                n = n + 1;
            } else {
                proof {
                    assert(acc =~= e.take(i + 1).to_set().intersect(om));
                }
            }
            i = i + 1;
        }
        assert(e.take(self.items.len() as int) =~= e);
        n
    }
}

} // verus!
