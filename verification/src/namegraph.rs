use vstd::prelude::*;
use crate::lex::lex_lt;
use crate::seqs::strings_view;
use crate::strs::chars_of;
use crate::strset::StrSet;
use crate::index::{empty_lists, push_at};

verus! {

/// Names in strictly increasing order.
pub open spec fn strictly_sorted(s: Seq<Seq<char>>) -> bool {
    forall|i: int, j: int| 0 <= i < j < s.len() ==> lex_lt(s[i], s[j])
}

/// Positions in strictly increasing order.
pub open spec fn increasing(v: Seq<usize>) -> bool {
    forall|i: int, j: int| 0 <= i < j < v.len() ==> v[i] < v[j]
}

/// A sequence of distinct positions below `n` has at most `n` entries.
pub proof fn lemma_distinct_bounded(s: Seq<usize>, n: nat)
    requires
        s.no_duplicates(),
        forall|k: int| 0 <= k < s.len() ==> s[k] < n,
    ensures
        s.len() <= n,
{
    let t = s.map_values(|x: usize| x as int);
    assert(t.no_duplicates()) by {
        assert forall|i: int, j: int| 0 <= i < t.len() && 0 <= j < t.len() && i != j implies t[i] != t[j] by {
            assert(s[i] != s[j]);
        }
    }
    t.unique_seq_to_set();
    vstd::set_lib::lemma_int_range(0, n as int);
    assert(t.to_set().subset_of(vstd::set_lib::set_int_range(0, n as int))) by {
        assert forall|x: int| t.to_set().contains(x) implies vstd::set_lib::set_int_range(0, n as int).contains(x) by {
            let k = choose|k: int| 0 <= k < t.len() && t[k] == x;
            assert(s[k] < n);
        }
    }
    vstd::set_lib::lemma_len_subset(t.to_set(), vstd::set_lib::set_int_range(0, n as int));
}


/// `x` occurs in `v`.
pub open spec fn occurs(v: Seq<usize>, x: int) -> bool {
    exists|k: int| 0 <= k < v.len() && v[k] == x
}

pub proof fn lemma_occurs_contains(v: Seq<usize>, x: int)
    requires
        0 <= x <= usize::MAX,
    ensures
        occurs(v, x) <==> v.contains(x as usize),
{
    if occurs(v, x) {
        let k = choose|k: int| 0 <= k < v.len() && v[k] == x;
        assert(v[k] == x as usize);
    }
    if v.contains(x as usize) {
        let k = choose|k: int| 0 <= k < v.len() && v[k] == x as usize;
        assert(v[k] == x);
    }
}

pub proof fn lemma_occurs_push(v: Seq<usize>, e: usize, x: int)
    ensures
        occurs(v.push(e), x) <==> (occurs(v, x) || e == x),
{
    if occurs(v.push(e), x) {
        let k = choose|k: int| 0 <= k < v.push(e).len() && v.push(e)[k] == x;
        if k < v.len() {
            assert(v[k] == x);
        }
    }
    if occurs(v, x) {
        let k = choose|k: int| 0 <= k < v.len() && v[k] == x;
        assert(v.push(e)[k] == x);
    }
    if e == x {
        assert(v.push(e)[v.len() as int] == x);
    }
}

pub proof fn lemma_occurs_take(v: Seq<usize>, k: int, x: int)
    requires
        0 <= k < v.len(),
    ensures
        occurs(v.take(k + 1), x) <==> (occurs(v.take(k), x) || v[k] == x),
{
    assert(v.take(k + 1) =~= v.take(k).push(v[k]));
    lemma_occurs_push(v.take(k), v[k], x);
}

pub proof fn lemma_occurs_skip(v: Seq<usize>, k: int, x: int)
    requires
        0 <= k < v.len(),
    ensures
        occurs(v.skip(k), x) <==> (occurs(v.skip(k + 1), x) || v[k] == x),
{
    if occurs(v.skip(k), x) {
        let q = choose|q: int| 0 <= q < v.skip(k).len() && #[trigger] v.skip(k)[q] == x;
        if q > 0 {
            assert(v.skip(k + 1)[q - 1] == x);
        }
    }
    if occurs(v.skip(k + 1), x) {
        let q = choose|q: int| 0 <= q < v.skip(k + 1).len() && #[trigger] v.skip(k + 1)[q] == x;
        assert(v.skip(k)[q + 1] == x);
    }
    if v[k] == x {
        assert(v.skip(k)[0] == x);
    }
}

/// A directed graph whose vertices are names, listed in increasing order; each
/// vertex lists its successors by position, in increasing order (the shape of a
/// `BTreeMap<String, BTreeSet<String>>` in which every mentioned name is a key).
pub struct NameGraph {
    pub names: Vec<String>,
    pub succ: Vec<Vec<usize>>,
}

impl NameGraph {
    /// Number of vertices.
    pub open spec fn n(&self) -> nat {
        self.names@.len()
    }

    /// The name of vertex `i`.
    pub open spec fn name(&self, i: int) -> Seq<char> {
        self.names@[i]@
    }

    pub open spec fn wf(&self) -> bool {
        &&& strictly_sorted(strings_view(self.names@))
        &&& self.succ@.len() == self.names@.len()
        &&& forall|i: int| 0 <= i < self.succ@.len() ==> increasing(#[trigger] self.succ@[i]@)
        &&& forall|i: int, k: int|
            0 <= i < self.succ@.len() && 0 <= k < self.succ@[i]@.len() ==> (#[trigger] self.succ@[i]@[k])
                < self.names@.len()
    }

    /// There is an edge from vertex `i` to vertex `j`.
    pub open spec fn edge(&self, i: int, j: int) -> bool {
        &&& 0 <= i < self.succ@.len()
        &&& 0 <= j
        &&& occurs(self.succ@[i]@, j)
    }

    /// The position of the vertex named `x`, if any.
    pub fn find(&self, x: &str) -> (r: Option<usize>)
        requires
            self.wf(),
        ensures
            match r {
                Some(i) => i < self.n() && self.name(i as int) == x@,
                None => forall|i: int| 0 <= i < self.n() ==> self.name(i) != x@,
            },
    {
        let mut i: usize = 0;
        while i < self.names.len()
            invariant
                i <= self.names.len(),
                forall|k: int| 0 <= k < i ==> self.names@[k]@ != x@,
            decreases self.names.len() - i,
        {
            if crate::strs::str_eq(self.names[i].as_str(), x) {
                return Some(i);
            }
            i = i + 1;
        }
        None
    }
}

/// Some pair among the first `t` of `pairs` runs from `a` to `b`.
pub open spec fn paired(pairs: Seq<(String, String)>, t: int, a: Seq<char>, b: Seq<char>) -> bool {
    exists|k: int| 0 <= k < t && (#[trigger] pairs[k]).0@ == a && pairs[k].1@ == b
}

/// Every name among `keys` and the ends of `pairs`.
pub open spec fn names_of(keys: Seq<String>, pairs: Seq<(String, String)>) -> Set<Seq<char>> {
    Set::new(
        |x: Seq<char>|
            (exists|k: int| 0 <= k < keys.len() && (#[trigger] keys[k])@ == x) || (exists|k: int|
                0 <= k < pairs.len() && ((#[trigger] pairs[k]).0@ == x || pairs[k].1@ == x)),
    )
}

/// Adds `x` to an increasing list (`BTreeSet::insert`).
fn insert_sorted(v: &mut Vec<usize>, x: usize)
    requires
        increasing(old(v)@),
    ensures
        increasing(final(v)@),
        forall|y: usize| #[trigger] final(v)@.contains(y) <==> (old(v)@.contains(y) || y == x),
{
    let mut p: usize = 0;
    while p < v.len() && v[p] < x
        invariant
            p <= v.len(),
            v@ == old(v)@,
            forall|k: int| 0 <= k < p ==> v@[k] < x,
        decreases v.len() - p,
    {
        p = p + 1;
    }
    if p < v.len() && v[p] == x {
        assert(v@[p as int] == x);
        return ;
    }
    let ghost before = v@;
    v.insert(p, x);
    proof {
        assert(v@ =~= before.insert(p as int, x));
        assert forall|y: usize| #[trigger] v@.contains(y) <==> (before.contains(y) || y == x) by {
            if v@.contains(y) {
                let k = choose|k: int| 0 <= k < v@.len() && v@[k] == y;
                if k < p {
                    assert(before[k] == y);
                } else if k > p {
                    assert(before[k - 1] == y);
                }
            }
            if before.contains(y) {
                let k = choose|k: int| 0 <= k < before.len() && before[k] == y;
                if k < p {
                    assert(v@[k] == y);
                } else {
                    assert(v@[k + 1] == y);
                }
            }
            if y == x {
                assert(v@[p as int] == x);
            }
        }
    }
}

/// Adds `x` to the successor list `rows[a]`.
fn add_successor(rows: &mut Vec<Vec<usize>>, a: usize, x: usize)
    requires
        a < old(rows)@.len(),
        increasing(old(rows)@[a as int]@),
    ensures
        final(rows)@.len() == old(rows)@.len(),
        forall|i: int| 0 <= i < old(rows)@.len() && i != a ==> final(rows)@[i] == old(rows)@[i],
        increasing(final(rows)@[a as int]@),
        forall|y: usize|
            final(rows)@[a as int]@.contains(y) <==> (old(rows)@[a as int]@.contains(y) || y == x),
{
    let row = &mut rows[a];
    insert_sorted(row, x);
}

/// The graph on the names of `keys` and of the ends of `pairs`, with an edge for
/// each pair.
pub fn graph_from_pairs(keys: &Vec<String>, pairs: &Vec<(String, String)>) -> (g: NameGraph)
    ensures
        g.wf(),
        strings_view(g.names@).to_set() == names_of(keys@, pairs@),
        forall|i: int, j: int|
            0 <= i < g.n() && 0 <= j < g.n() ==> (g.edge(i, j) <==> paired(
                pairs@,
                pairs@.len() as int,
                g.name(i),
                g.name(j),
            )),
{
    let mut set = StrSet::new();
    let mut t: usize = 0;
    while t < keys.len()
        invariant
            t <= keys.len(),
            set.wf(),
            forall|x: Seq<char>|
                set.members().contains(x) <==> exists|k: int| 0 <= k < t && (#[trigger] keys@[k])@ == x,
        decreases keys.len() - t,
    {
        set.insert(chars_of(keys[t].as_str()));
        proof {
            assert forall|x: Seq<char>|
                set.members().contains(x) <==> exists|k: int| 0 <= k < t + 1 && (#[trigger] keys@[k])@ == x by {
                if x == keys@[t as int]@ {
                    assert(keys@[t as int]@ == x);
                }
            }
        }
        t = t + 1;
    }
    let mut t: usize = 0;
    while t < pairs.len()
        invariant
            t <= pairs.len(),
            set.wf(),
            forall|x: Seq<char>|
                set.members().contains(x) <==> (exists|k: int| 0 <= k < keys.len() && (#[trigger] keys@[k])@
                    == x) || (exists|k: int|
                    0 <= k < t && ((#[trigger] pairs@[k]).0@ == x || pairs@[k].1@ == x)),
        decreases pairs.len() - t,
    {
        set.insert(chars_of(pairs[t].0.as_str()));
        set.insert(chars_of(pairs[t].1.as_str()));
        proof {
            assert forall|x: Seq<char>|
                set.members().contains(x) <==> (exists|k: int| 0 <= k < keys.len() && (#[trigger] keys@[k])@
                    == x) || (exists|k: int|
                    0 <= k < t + 1 && ((#[trigger] pairs@[k]).0@ == x || pairs@[k].1@ == x)) by {
                if x == pairs@[t as int].0@ || x == pairs@[t as int].1@ {
                    assert(pairs@[t as int].0@ == x || pairs@[t as int].1@ == x);
                }
            }
        }
        t = t + 1;
    }
    proof {
        set.lemma_listing();
        assert(set.members() =~= names_of(keys@, pairs@));
    }
    let names = set.to_strings();
    let ghost lst = set.listing();
    let mut succ: Vec<Vec<usize>> = Vec::new();
    let mut i: usize = 0;
    while i < names.len()
        invariant
            i <= names.len(),
            succ@.len() == i,
            forall|r: int| 0 <= r < i ==> (#[trigger] succ@[r])@.len() == 0,
        decreases names.len() - i,
    {
        succ.push(Vec::new());
        i = i + 1;
    }
    assert(strings_view(names@).len() == names@.len());
    let mut t: usize = 0;
    while t < pairs.len()
        invariant
            t <= pairs.len(),
            set.wf(),
            strings_view(names@) == lst,
            lst == set.listing(),
            lst.len() == names@.len(),
            lst.to_set() == names_of(keys@, pairs@),
            set.members() == lst.to_set(),
            strictly_sorted(lst),
            succ@.len() == names@.len(),
            forall|r: int| 0 <= r < succ@.len() ==> increasing(#[trigger] succ@[r]@),
            forall|r: int, k: int|
                0 <= r < succ@.len() && 0 <= k < succ@[r]@.len() ==> (#[trigger] succ@[r]@[k]) < names@.len(),
            forall|r: int, c: int|
                0 <= r < names@.len() && 0 <= c < names@.len() ==> (succ@[r]@.contains(c as usize) <==> paired(
                    pairs@,
                    t as int,
                    lst[r],
                    lst[c],
                )),
        decreases pairs.len() - t,
    {
        let a_name = chars_of(pairs[t].0.as_str());
        let b_name = chars_of(pairs[t].1.as_str());
        proof {
            assert(names_of(keys@, pairs@).contains(pairs@[t as int].0@));
            assert(names_of(keys@, pairs@).contains(pairs@[t as int].1@));
        }
        let a = match set.position(&a_name) {
            Some(p) => p,
            None => {
                proof {
                    assert(lst.to_set().contains(a_name@));
                }
                0
            },
        };
        let b = match set.position(&b_name) {
            Some(p) => p,
            None => {
                proof {
                    assert(lst.to_set().contains(b_name@));
                }
                0
            },
        };
        let ghost old_succ = succ@;
        add_successor(&mut succ, a, b);
        proof {
            assert forall|r: int, c: int|
                0 <= r < names@.len() && 0 <= c < names@.len() implies (succ@[r]@.contains(c as usize) <==> paired(
                pairs@,
                t + 1,
                lst[r],
                lst[c],
            )) by {
                let here = lst[r] == pairs@[t as int].0@ && lst[c] == pairs@[t as int].1@;
                assert(here <==> (r == a && c == b)) by {
                    if here {
                        if r != a {
                            crate::lex::lemma_lex_irreflexive(lst[r]);
                            if r < a {
                                assert(lex_lt(lst[r], lst[a as int]));
                            } else {
                                assert(lex_lt(lst[a as int], lst[r]));
                            }
                        }
                        if c != b {
                            crate::lex::lemma_lex_irreflexive(lst[c]);
                            if c < b {
                                assert(lex_lt(lst[c], lst[b as int]));
                            } else {
                                assert(lex_lt(lst[b as int], lst[c]));
                            }
                        }
                    }
                }
                if paired(pairs@, t + 1, lst[r], lst[c]) && !here {
                    let k = choose|k: int|
                        0 <= k < t + 1 && (#[trigger] pairs@[k]).0@ == lst[r] && pairs@[k].1@ == lst[c];
                    assert(k < t);
                    assert(paired(pairs@, t as int, lst[r], lst[c]));
                }
                if here {
                    assert(pairs@[t as int].0@ == lst[r]);
                }
                if r == a {
                    assert(succ@[a as int]@.contains(c as usize) <==> (old_succ[a as int]@.contains(c as usize)
                        || c as usize == b));
                    assert(c < names.len());
                    assert(c as usize as int == c);
                    if c as usize == b {
                        assert(c == b);
                    }
                }
                if old_succ[r]@.contains(c as usize) {
                    assert(paired(pairs@, t as int, lst[r], lst[c]));
                    let k = choose|k: int|
                        0 <= k < t && (#[trigger] pairs@[k]).0@ == lst[r] && pairs@[k].1@ == lst[c];
                    assert(pairs@[k].0@ == lst[r]);
                }
                if r != a {
                    assert(succ@[r] == old_succ[r]);
                }
            }
            assert forall|r: int, k: int|
                0 <= r < succ@.len() && 0 <= k < succ@[r]@.len() implies (#[trigger] succ@[r]@[k]) < names@.len() by {
                if r == a {
                    assert(succ@[r]@.contains(succ@[r]@[k]));
                    if succ@[r]@[k] != b {
                        assert(old_succ[r]@.contains(succ@[r]@[k]));
                        let q = choose|q: int| 0 <= q < old_succ[r]@.len() && old_succ[r]@[q] == succ@[r]@[k];
                        assert(old_succ[r]@[q] < names@.len());
                    }
                } else {
                    assert(succ@[r] == old_succ[r]);
                }
            }
        }
        t = t + 1;
    }
    let g = NameGraph { names, succ };
    assert(forall|i: int| 0 <= i < g.n() ==> g.name(i) == lst[i]);
    proof {
        assert forall|i: int, j: int| 0 <= i < g.n() && 0 <= j < g.n() implies (g.edge(i, j) <==> succ@[i]@.contains(
            j as usize,
        )) by {
            lemma_occurs_contains(succ@[i]@, j);
        }
    }
    g
}



// ---------------------------------------------------------------------------
// Predecessors and topological order
// ---------------------------------------------------------------------------

/// `p` lists, for each vertex, the vertices with an edge to it.
pub open spec fn lists_preds(g: NameGraph, p: Seq<Vec<usize>>) -> bool {
    &&& p.len() == g.n()
    &&& forall|j: int| 0 <= j < p.len() ==> increasing(#[trigger] p[j]@)
    &&& forall|j: int, k: int| 0 <= j < p.len() && 0 <= k < p[j]@.len() ==> (#[trigger] p[j]@[k]) < g.n()
    &&& forall|j: int, i: int|
        #![trigger occurs(p[j]@, i)]
        #![trigger g.edge(i, j)]
        0 <= j < g.n() && 0 <= i < g.n() ==> (occurs(p[j]@, i) <==> g.edge(i, j))
}

/// The predecessor lists of `g`.
pub fn predecessors(g: &NameGraph) -> (p: Vec<Vec<usize>>)
    requires
        g.wf(),
    ensures
        lists_preds(*g, p@),
{
    let n = g.names.len();
    let mut p = empty_lists(n);
    let mut i: usize = 0;
    while i < n
        invariant
            g.wf(),
            n == g.n(),
            i <= n,
            p@.len() == n,
            forall|j: int, k: int| 0 <= j < n && 0 <= k < p@[j]@.len() ==> (#[trigger] p@[j]@[k]) < n,
            forall|j: int, k: int| 0 <= j < n && 0 <= k < p@[j]@.len() ==> (#[trigger] p@[j]@[k]) < i,
            forall|j: int| 0 <= j < n ==> increasing(#[trigger] p@[j]@),
            forall|j: int, x: int|
                #![trigger occurs(p@[j]@, x)]
                #![trigger g.edge(x, j)]
                0 <= j < n && 0 <= x < n ==> (occurs(p@[j]@, x) <==> (x < i && g.edge(x, j))),
        decreases n - i,
    {
        let row = &g.succ[i];
        let mut k: usize = 0;
        while k < row.len()
            invariant
                g.wf(),
                n == g.n(),
                i < n,
                row@ == g.succ@[i as int]@,
                k <= row.len(),
                p@.len() == n,
                forall|j: int, k2: int| 0 <= j < n && 0 <= k2 < p@[j]@.len() ==> (#[trigger] p@[j]@[k2]) < n,
                forall|j: int, k2: int| 0 <= j < n && 0 <= k2 < p@[j]@.len() ==> (#[trigger] p@[j]@[k2]) <= i,
                forall|j: int| 0 <= j < n ==> increasing(#[trigger] p@[j]@),
                forall|j: int, x: int|
                    #![trigger occurs(p@[j]@, x)]
                    0 <= j < n && 0 <= x < n ==> (occurs(p@[j]@, x) <==> ((x < i && g.edge(x, j)) || (x == i
                        && occurs(row@.take(k as int), j)))),
            decreases row.len() - k,
        {
            let j = row[k];
            assert(j < n);
            let ghost before = p@;
            push_at(&mut p, j, i);
            proof {
                assert forall|j2: int, x: int|
                    0 <= j2 < n && 0 <= x < n implies (#[trigger] occurs(p@[j2]@, x) <==> ((x < i && g.edge(x, j2)) || (x
                        == i && occurs(row@.take(k + 1), j2)))) by {
                    lemma_occurs_take(row@, k as int, j2);
                    if j2 == j {
                        lemma_occurs_push(before[j2]@, i, x);
                    } else {
                        assert(p@[j2] == before[j2]);
                    }
                }
                assert(!occurs(before[j as int]@, i as int)) by {
                    if occurs(before[j as int]@, i as int) {
                        assert(occurs(row@.take(k as int), j as int));
                        let q = choose|q: int| 0 <= q < row@.take(k as int).len() && row@.take(k as int)[q] == j;
                        assert(row@[q] < row@[k as int]);
                    }
                }
                assert forall|j2: int| 0 <= j2 < n implies increasing(#[trigger] p@[j2]@) by {
                    if j2 == j {
                        assert forall|a: int, b: int| 0 <= a < b < p@[j2]@.len() implies p@[j2]@[a] < p@[j2]@[b] by {
                            if b == before[j2]@.len() {
                                assert(p@[j2]@[a] == before[j2]@[a]);
                                assert(before[j2]@[a] <= i);
                                if before[j2]@[a] == i {
                                    assert(occurs(before[j2]@, i as int));
                                }
                            } else {
                                assert(p@[j2]@[a] == before[j2]@[a]);
                                assert(p@[j2]@[b] == before[j2]@[b]);
                            }
                        }
                    } else {
                        assert(p@[j2] == before[j2]);
                    }
                }
                assert forall|j2: int, k2: int| 0 <= j2 < n && 0 <= k2 < p@[j2]@.len() implies (#[trigger] p@[j2]@[k2]) <= i by {
                    if j2 == j && k2 == before[j2]@.len() {
                    } else if j2 == j {
                        assert(p@[j2]@[k2] == before[j2]@[k2]);
                    } else {
                        assert(p@[j2] == before[j2]);
                    }
                }
                assert forall|j2: int, k2: int| 0 <= j2 < n && 0 <= k2 < p@[j2]@.len() implies (#[trigger] p@[j2]@[k2])
                    < n by {
                    if j2 == j && k2 == before[j2]@.len() {
                    } else if j2 == j {
                        assert(p@[j2]@[k2] == before[j2]@[k2]);
                    } else {
                        assert(p@[j2] == before[j2]);
                    }
                }
            }
            k = k + 1;
        }
        proof {
            assert(row@.take(row.len() as int) =~= row@);
            assert forall|j: int, k2: int| 0 <= j < n && 0 <= k2 < p@[j]@.len() implies (#[trigger] p@[j]@[k2]) < i + 1 by {
                assert(p@[j]@[k2] <= i);
            }
            assert forall|j: int, x: int|
                0 <= j < n && 0 <= x < n implies (#[trigger] occurs(p@[j]@, x) <==> (x < i + 1 && g.edge(x, j))) by {
                assert(occurs(p@[j]@, x) <==> ((x < i && g.edge(x, j)) || (x == i && occurs(row@.take(row.len() as int), j))));
            }
        }
        i = i + 1;
    }
    p
}

/// Whether every vertex of `list` is marked in `flags`.
fn all_marked(list: &Vec<usize>, flags: &Vec<bool>) -> (b: bool)
    requires
        forall|k: int| 0 <= k < list@.len() ==> list@[k] < flags@.len(),
    ensures
        b <==> forall|k: int| 0 <= k < list@.len() ==> flags@[#[trigger] list@[k] as int],
{
    let mut k: usize = 0;
    while k < list.len()
        invariant
            k <= list.len(),
            forall|k2: int| 0 <= k2 < list@.len() ==> list@[k2] < flags@.len(),
            forall|k2: int| 0 <= k2 < k ==> flags@[#[trigger] list@[k2] as int],
        decreases list.len() - k,
    {
        if !flags[list[k]] {
            return false;
        }
        k = k + 1;
    }
    true
}

pub fn flags(n: usize) -> (v: Vec<bool>)
    ensures
        v@.len() == n,
        forall|i: int| 0 <= i < n ==> !v@[i],
{
    let mut v: Vec<bool> = Vec::new();
    while v.len() < n
        invariant
            v@.len() <= n,
            forall|i: int| 0 <= i < v@.len() ==> !v@[i],
        decreases n - v@.len(),
    {
        v.push(false);
    }
    v
}

/// Vertex `j` has a predecessor.
pub open spec fn has_pred(g: NameGraph, j: int) -> bool {
    exists|i: int| 0 <= i < g.n() && #[trigger] g.edge(i, j)
}

/// The vertices below `m` without predecessors, in increasing order.
pub open spec fn sources_upto(g: NameGraph, m: int) -> Seq<usize>
    decreases m,
{
    if m <= 0 {
        Seq::empty()
    } else if has_pred(g, m - 1) {
        sources_upto(g, m - 1)
    } else {
        sources_upto(g, m - 1).push((m - 1) as usize)
    }
}

/// `order` is a topological order of the part of `g` that no cycle reaches:
/// each vertex once, each after all its predecessors; every vertex left out has a
/// predecessor that is left out too.
pub open spec fn is_peeling(g: NameGraph, order: Seq<usize>) -> bool {
    &&& order.no_duplicates()
    &&& forall|a: int| 0 <= a < order.len() ==> order[a] < g.n()
    &&& forall|a: int, i: int|
        0 <= a < order.len() && 0 <= i < g.n() && #[trigger] g.edge(i, order[a] as int) ==> occurs(order.take(a), i)
    &&& forall|j: int|
        0 <= j < g.n() && !occurs(order, j) ==> exists|i: int| 0 <= i < g.n() && #[trigger] g.edge(i, j) && !occurs(order, i)
}

/// Kahn's algorithm: the vertices without predecessors first, in increasing
/// order, then each vertex as soon as its last predecessor has been taken.
pub fn topological_order(g: &NameGraph) -> (order: Vec<usize>)
    requires
        g.wf(),
    ensures
        is_peeling(*g, order@),
        sources_upto(*g, g.n() as int).len() <= order@.len(),
        order@.take(sources_upto(*g, g.n() as int).len() as int) == sources_upto(*g, g.n() as int),
{
    let n = g.names.len();
    let preds = predecessors(g);
    let mut queued = flags(n);
    let mut done = flags(n);
    let mut queue: Vec<usize> = Vec::new();
    let mut j: usize = 0;
    while j < n
        invariant
            g.wf(),
            n == g.n(),
            lists_preds(*g, preds@),
            j <= n,
            queued@.len() == n,
            done@.len() == n,
            forall|x: int| 0 <= x < n ==> !done@[x],
            queue@ == sources_upto(*g, j as int),
            forall|a: int| 0 <= a < queue@.len() ==> queue@[a] < j,
            increasing(queue@),
            forall|x: int| 0 <= x < n ==> (queued@[x] <==> occurs(queue@, x)),
            forall|x: int| 0 <= x < j ==> (occurs(queue@, x) <==> !has_pred(*g, x)),
        decreases n - j,
    {
        let ghost before = queue@;
        if preds[j].len() == 0 {
            proof {
                assert(!has_pred(*g, j as int)) by {
                    if has_pred(*g, j as int) {
                        let i = choose|i: int| 0 <= i < g.n() && #[trigger] g.edge(i, j as int);
                        assert(occurs(preds@[j as int]@, i));
                    }
                }
            }
            queue.push(j);
            queued.set(j, true);
        } else {
            proof {
                assert(occurs(preds@[j as int]@, preds@[j as int]@[0] as int));
                assert(g.edge(preds@[j as int]@[0] as int, j as int));
            }
        }
        proof {
            assert forall|x: int| 0 <= x < n implies (queued@[x] <==> occurs(queue@, x)) by {
                if queue@ != before {
                    lemma_occurs_push(before, j, x);
                }
            }
            assert forall|x: int| 0 <= x < j + 1 implies (occurs(queue@, x) <==> !has_pred(*g, x)) by {
                if queue@ != before {
                    lemma_occurs_push(before, j, x);
                }
                if x == j && occurs(before, x) {
                    let q = choose|q: int| 0 <= q < before.len() && before[q] == x;
                    assert(before[q] < j);
                }
            }
        }
        j = j + 1;
    }
    let ghost sources = queue@;
    proof {
        assert forall|a: int, i: int|
            0 <= a < queue@.len() && 0 <= i < g.n() && #[trigger] g.edge(i, queue@[a] as int) implies occurs(
            queue@.take(a),
            i,
        ) by {
            let x = queue@[a] as int;
            assert(occurs(queue@, x));
            assert(!has_pred(*g, x));
        }
        assert forall|x: int| 0 <= x < n && !queued@[x] implies exists|i: int|
            0 <= i < g.n() && #[trigger] g.edge(i, x) && !done@[i] by {
            assert(has_pred(*g, x));
        }
        assert(queue@.take(sources.len() as int) =~= sources);
    }
    let mut head: usize = 0;
    while head < queue.len()
        invariant
            g.wf(),
            n == g.n(),
            lists_preds(*g, preds@),
            queued@.len() == n,
            done@.len() == n,
            head <= queue@.len(),
            queue@.no_duplicates(),
            forall|a: int| 0 <= a < queue@.len() ==> queue@[a] < n,
            queue@.take(sources.len() as int) == sources,
            sources.len() <= queue@.len(),
            forall|x: int| 0 <= x < n ==> (queued@[x] <==> occurs(queue@, x)),
            forall|x: int| 0 <= x < n ==> (done@[x] <==> occurs(queue@.take(head as int), x)),
            forall|a: int, i: int|
                0 <= a < queue@.len() && 0 <= i < g.n() && #[trigger] g.edge(i, queue@[a] as int) ==> occurs(
                    queue@.take(a),
                    i,
                ),
            forall|x: int|
                0 <= x < n && !queued@[x] ==> exists|i: int| 0 <= i < g.n() && #[trigger] g.edge(i, x) && !done@[i],
        decreases n - head,
    {
        proof {
            lemma_distinct_bounded(queue@, n as nat);
        }
        let i = queue[head];
        let ghost done_before = done@;
        done.set(i, true);
        proof {
            assert forall|x: int| 0 <= x < n implies (done@[x] <==> occurs(queue@.take(head + 1), x)) by {
                lemma_occurs_take(queue@, head as int, x);
            }
        }
        head = head + 1;
        let row = &g.succ[i];
        proof {
            assert(row@.skip(0) =~= row@);
            assert forall|x: int|
                0 <= x < n && !queued@[x] implies (exists|i2: int| 0 <= i2 < g.n() && #[trigger] g.edge(i2, x) && !done@[i2])
                    || occurs(row@.skip(0), x) by {
                let w = choose|w: int| 0 <= w < g.n() && #[trigger] g.edge(w, x) && !done_before[w];
                if w == i {
                    assert(occurs(g.succ@[i as int]@, x));
                } else {
                    assert(!done@[w]);
                }
            }
        }
        let mut k: usize = 0;
        while k < row.len()
            invariant
                g.wf(),
                n == g.n(),
                i < n,
                row@ == g.succ@[i as int]@,
                lists_preds(*g, preds@),
                queued@.len() == n,
                done@.len() == n,
                done@[i as int],
                0 < head <= queue@.len(),
                k <= row.len(),
                queue@.no_duplicates(),
                forall|a: int| 0 <= a < queue@.len() ==> queue@[a] < n,
                queue@.take(sources.len() as int) == sources,
                sources.len() <= queue@.len(),
                forall|x: int| 0 <= x < n ==> (queued@[x] <==> occurs(queue@, x)),
                forall|x: int| 0 <= x < n ==> (done@[x] <==> occurs(queue@.take(head as int), x)),
                forall|a: int, i2: int|
                    0 <= a < queue@.len() && 0 <= i2 < g.n() && #[trigger] g.edge(i2, queue@[a] as int) ==> occurs(
                        queue@.take(a),
                        i2,
                    ),
                forall|x: int|
                    0 <= x < n && !queued@[x] ==> (exists|i2: int| 0 <= i2 < g.n() && #[trigger] g.edge(i2, x) && !done@[i2])
                        || occurs(row@.skip(k as int), x),
            decreases row.len() - k,
        {
            let jj = row[k];
            assert(jj < n);
            let ghost qb = queue@;
            let ghost qdb = queued@;
            let ready = !queued[jj] && all_marked(&preds[jj], &done);
            if ready {
                proof {
                    lemma_distinct_bounded(queue@, n as nat);
                    assert(!occurs(queue@, jj as int));
                }
                queue.push(jj);
                queued.set(jj, true);
                proof {
                    assert(queue@.take(sources.len() as int) =~= qb.take(sources.len() as int));
                    assert(queue@.take(head as int) =~= qb.take(head as int));
                    assert(queue@.no_duplicates()) by {
                        assert forall|a: int, b: int| 0 <= a < queue@.len() && 0 <= b < queue@.len() && a != b implies queue@[a]
                            != queue@[b] by {
                            if a == qb.len() && b < qb.len() {
                                assert(qb[b] == queue@[b]);
                                if queue@[a] == queue@[b] {
                                    assert(occurs(qb, jj as int));
                                }
                            } else if b == qb.len() && a < qb.len() {
                                assert(qb[a] == queue@[a]);
                                if queue@[a] == queue@[b] {
                                    assert(occurs(qb, jj as int));
                                }
                            }
                        }
                    }
                    assert forall|x: int| 0 <= x < n implies (queued@[x] <==> occurs(queue@, x)) by {
                        lemma_occurs_push(qb, jj, x);
                    }
                    assert forall|a: int, i2: int|
                        0 <= a < queue@.len() && 0 <= i2 < g.n() && #[trigger] g.edge(i2, queue@[a] as int) implies occurs(
                        queue@.take(a),
                        i2,
                    ) by {
                        if a == qb.len() {
                            assert(occurs(preds@[jj as int]@, i2));
                            let q = choose|q: int| 0 <= q < preds@[jj as int]@.len() && #[trigger] preds@[jj as int]@[q] == i2;
                            assert(done@[preds@[jj as int]@[q] as int]);
                            assert(occurs(queue@.take(head as int), i2));
                            let b = choose|b: int| 0 <= b < head && #[trigger] queue@.take(head as int)[b] == i2;
                            assert(queue@.take(a)[b] == i2);
                        } else {
                            assert(queue@[a] == qb[a]);
                            assert(queue@.take(a) =~= qb.take(a));
                        }
                    }
                }
            }
            proof {
                assert forall|x: int|
                    0 <= x < n && !queued@[x] implies (exists|i2: int| 0 <= i2 < g.n() && #[trigger] g.edge(i2, x) && !done@[i2])
                        || occurs(row@.skip(k + 1), x) by {
                    lemma_occurs_skip(row@, k as int, x);
                    if x == jj {
                        assert(!qdb[x]);
                        assert(!ready);
                        let q2 = choose|q2: int| 0 <= q2 < preds@[jj as int]@.len() && !done@[#[trigger] preds@[jj as int]@[q2] as int];
                        let w = preds@[jj as int]@[q2] as int;
                        assert(occurs(preds@[jj as int]@, w));
                        assert(g.edge(w, x));
                    } else if ready {
                        assert(queued@[x] == qdb[x]);
                    }
                }
            }
            k = k + 1;
        }
        proof {
            assert forall|x: int|
                0 <= x < n && !queued@[x] implies exists|i2: int| 0 <= i2 < g.n() && #[trigger] g.edge(i2, x) && !done@[i2] by {
                if occurs(row@.skip(row.len() as int), x) {
                    let q = choose|q: int| 0 <= q < row@.skip(row.len() as int).len() && #[trigger] row@.skip(row.len() as int)[q] == x;
                }
            }
        }
    }
    proof {
        assert(queue@.take(head as int) =~= queue@);
    }
    queue
}

/// Whether `x` is in the list `v`.
pub fn occurs_exec(v: &Vec<usize>, x: usize) -> (b: bool)
    ensures
        b == occurs(v@, x as int),
{
    let mut k: usize = 0;
    while k < v.len()
        invariant
            k <= v.len(),
            forall|q: int| 0 <= q < k ==> v@[q] != x,
        decreases v.len() - k,
    {
        if v[k] == x {
            return true;
        }
        k = k + 1;
    }
    false
}

} // verus!
