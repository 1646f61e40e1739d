use vstd::prelude::*;
use crate::namegraph::{flags, lemma_occurs_push, occurs, NameGraph};
use crate::seqs::count_where;

verus! {

// ---------------------------------------------------------------------------
// Strongly connected components (Tarjan)
// ---------------------------------------------------------------------------

pub proof fn lemma_count_update<T>(s: Seq<T>, i: int, v: T, p: spec_fn(T) -> bool)
    requires
        0 <= i < s.len(),
    ensures
        count_where(s.update(i, v), p) + (if p(s[i]) { 1int } else { 0int }) == count_where(s, p) + (if p(v) {
            1int
        } else {
            0int
        }),
    decreases s.len(),
{
    if i == s.len() - 1 {
        assert(s.update(i, v).drop_last() =~= s.drop_last());
    } else {
        lemma_count_update(s.drop_last(), i, v, p);
        assert(s.update(i, v).drop_last() =~= s.drop_last().update(i, v));
    }
}

proof fn lemma_edge_bounded(g: NameGraph, x: int, y: int)
    requires
        g.wf(),
        g.edge(x, y),
    ensures
        0 <= y < g.n(),
{
    let q = choose|q: int| 0 <= q < g.succ@[x]@.len() && g.succ@[x]@[q] == y;
    assert(g.succ@[x]@[q] < g.names@.len());
}

proof fn lemma_emit_closed(g: NameGraph, bp: Tarjan, af: Tarjan, bottom: int, v: int, knum: nat)
    requires
        g.wf(),
        bp.inv(g.n()),
        bp.searched(g),
        0 <= bottom < bp.stack@.len(),
        bp.stack@[bottom] == v,
        0 <= v < g.n(),
        bp.low@[v] == bp.idx@[v],
        forall|a: int|
            bottom <= a < bp.stack@.len() ==> bp.finished(g, #[trigger] bp.stack@[a] as int) && bp.low@[v]
                <= bp.low@[bp.stack@[a] as int],
        knum == bp.sccs@.len() + 1,
        af.idx@ == bp.idx@,
        af.stack@ == bp.stack@.take(bottom),
        af.on_stack@.len() == g.n(),
        af.comp@.len() == g.n(),
        forall|x: int| 0 <= x < g.n() ==> (af.on_stack@[x] <==> occurs(af.stack@, x)),
        forall|x: int| 0 <= x < g.n() ==> (af.idx@[x] != 0 <==> (af.on_stack@[x] || af.comp@[x] != 0)),
        forall|x: int| 0 <= x < g.n() ==> !(af.on_stack@[x] && af.comp@[x] != 0),
        forall|x: int| 0 <= x < g.n() && bp.comp@[x] != 0 ==> af.comp@[x] == bp.comp@[x],
        forall|x: int| 0 <= x < g.n() && bp.comp@[x] == 0 ==> (af.comp@[x] == 0 || af.comp@[x] == knum),
    ensures
        forall|x: int, y: int|
            0 <= x < g.n() && af.comp@[x] != 0 && #[trigger] g.edge(x, y) ==> af.comp@[y] != 0 && af.comp@[y] <= af.comp@[x],
{
    let n = g.n();
    assert forall|x: int, y: int| 0 <= x < n && af.comp@[x] != 0 && #[trigger] g.edge(x, y) implies af.comp@[y] != 0
        && af.comp@[y] <= af.comp@[x] by {
        lemma_edge_bounded(g, x, y);
        if bp.comp@[x] != 0 {
            assert(bp.comp@[y] != 0 && bp.comp@[y] <= bp.comp@[x]);
        } else {
            assert(af.comp@[x] == knum);
            assert(bp.idx@[x] != 0);
            assert(bp.on_stack@[x]);
            let a = choose|a: int| 0 <= a < bp.stack@.len() && bp.stack@[a] == x;
            if a < bottom {
                assert(af.stack@[a] == x);
                assert(occurs(af.stack@, x));
            }
            assert(bp.finished(g, bp.stack@[a] as int));
            assert(bp.idx@[y] != 0);
            if bp.on_stack@[y] {
                let p = choose|p: int| 0 <= p < bp.stack@.len() && bp.stack@[p] == y;
                assert(bp.low@[x] <= bp.idx@[y]);
                if p < bottom {
                    assert(bp.idx@[bp.stack@[p] as int] < bp.idx@[bp.stack@[bottom] as int]);
                }
                assert(!occurs(af.stack@, y)) by {
                    if occurs(af.stack@, y) {
                        let q = choose|q: int| 0 <= q < af.stack@.len() && af.stack@[q] == y;
                        assert(bp.stack@[q] == y);
                        assert(bp.stack@.no_duplicates());
                    }
                }
                assert(bp.comp@[y] == 0);
            } else {
                assert(bp.comp@[y] != 0);
                assert(bp.comp@[y] <= bp.sccs@.len());
            }
        }
    }
}

/// The vertex is not visited yet.
pub open spec fn unvisited() -> spec_fn(usize) -> bool {
    |x: usize| x == 0
}

/// The state of the search: `idx[x]` is one more than the visit number of `x`
/// (zero while unvisited), `low[x]` likewise for its low link, `comp[x]` one more
/// than the number of the component `x` was put in (zero until then).
pub struct Tarjan {
    pub counter: usize,
    pub stack: Vec<usize>,
    pub on_stack: Vec<bool>,
    pub idx: Vec<usize>,
    pub low: Vec<usize>,
    pub comp: Vec<usize>,
    pub sccs: Vec<Vec<usize>>,
}

impl Tarjan {
    /// The bookkeeping agrees: a vertex is visited once it has a number, then it
    /// is either on the stack or in exactly the component that `comp` names.
    pub open spec fn inv(&self, n: nat) -> bool {
        &&& self.on_stack@.len() == n
        &&& self.idx@.len() == n
        &&& self.low@.len() == n
        &&& self.comp@.len() == n
        &&& self.stack@.no_duplicates()
        &&& forall|a: int| 0 <= a < self.stack@.len() ==> self.stack@[a] < n
        &&& forall|x: int| 0 <= x < n ==> (self.on_stack@[x] <==> occurs(self.stack@, x))
        &&& forall|x: int| 0 <= x < n ==> (self.idx@[x] != 0 <==> (self.on_stack@[x] || self.comp@[x] != 0))
        &&& forall|x: int| 0 <= x < n ==> !(self.on_stack@[x] && self.comp@[x] != 0)
        &&& forall|x: int| 0 <= x < n ==> self.comp@[x] <= self.sccs@.len()
        &&& forall|x: int| 0 <= x < n ==> self.idx@[x] <= self.counter
        &&& forall|k: int, x: int|
            0 <= k < self.sccs@.len() && 0 <= x < n ==> (#[trigger] occurs(self.sccs@[k]@, x) <==> self.comp@[x] == k + 1)
        &&& forall|k: int, a: int| 0 <= k < self.sccs@.len() && 0 <= a < self.sccs@[k]@.len() ==> (#[trigger] self.sccs@[k]@[a]) < n
        &&& forall|k: int| 0 <= k < self.sccs@.len() ==> (#[trigger] self.sccs@[k]@).no_duplicates()
        &&& forall|k: int| 0 <= k < self.sccs@.len() ==> (#[trigger] self.sccs@[k]@).len() > 0
        &&& count_where(self.idx@, unvisited()) + self.counter == n
        &&& self.sccs@.len() <= self.counter
    }

    /// Since the search started anew at visit number `base`: whatever is on the
    /// stack and every low link of a vertex visited since is above `base`.
    pub open spec fn session(&self, n: nat, base: int) -> bool {
        &&& base <= self.counter
        &&& forall|x: int| 0 <= x < n && self.on_stack@[x] ==> self.idx@[x] > base
        &&& forall|x: int| 0 <= x < n && self.idx@[x] > base ==> self.low@[x] > base
    }

    /// What the search has established so far: the stack is ordered by visit
    /// number, no low link is above its vertex's number, and every edge out of
    /// a closed component leads to a closed component, the same or an earlier
    /// one.
    pub open spec fn searched(&self, g: NameGraph) -> bool {
        &&& forall|a: int, b: int|
            0 <= a < b < self.stack@.len() ==> self.idx@[#[trigger] self.stack@[a] as int] < self.idx@[#[trigger] self.stack@[b] as int]
        &&& forall|x: int| 0 <= x < g.n() && self.idx@[x] != 0 ==> #[trigger] self.low@[x] <= self.idx@[x]
        &&& forall|x: int, y: int|
            0 <= x < g.n() && self.comp@[x] != 0 && #[trigger] g.edge(x, y) ==> self.comp@[y] != 0 && self.comp@[y] <= self.comp@[x]
    }

    /// The search from `u` is over: each successor is visited, and one still on
    /// the stack is numbered no lower than `u`'s low link.
    pub open spec fn finished(&self, g: NameGraph, u: int) -> bool {
        forall|y: int| #[trigger] g.edge(u, y) ==> self.idx@[y] != 0 && (self.on_stack@[y] ==> self.low@[u] <= self.idx@[y])
    }

    /// Visits `v` and, depth first, every unvisited vertex it reaches, closing the
    /// components whose root is found on the way.
    fn strongconnect(&mut self, g: &NameGraph, v: usize, Ghost(base): Ghost<int>, Ghost(inside): Ghost<Set<int>>)
        requires
            g.wf(),
            inside.contains(v as int),
            forall|x: int, y: int| inside.contains(x) && #[trigger] g.edge(x, y) ==> inside.contains(y),
            forall|x: int| 0 <= x < g.n() && old(self).idx@[x] != 0 ==> inside.contains(x),
            old(self).inv(g.n()),
            old(self).session(g.n(), base),
            v < g.n(),
            old(self).idx@[v as int] == 0,
            old(self).searched(*g),
        ensures
            final(self).inv(g.n()),
            final(self).searched(*g),
            forall|a: int|
                old(self).stack@.len() <= a < final(self).stack@.len() ==> final(self).finished(*g, #[trigger] final(self).stack@[a] as int)
                    && final(self).low@[v as int] <= final(self).low@[final(self).stack@[a] as int],
            forall|x: int| 0 <= x < g.n() && old(self).idx@[x] != 0 && #[trigger] final(self).on_stack@[x] ==> old(self).on_stack@[x],
            final(self).session(g.n(), base),
            forall|x: int| 0 <= x < g.n() && final(self).idx@[x] != 0 ==> inside.contains(x),
            final(self).idx@[v as int] > old(self).counter,
            old(self).stack@.len() == 0 && old(self).counter == base ==> final(self).stack@.len() == 0,
            final(self).idx@[v as int] != 0,
            final(self).stack@.len() >= old(self).stack@.len(),
            final(self).stack@.take(old(self).stack@.len() as int) == old(self).stack@,
            final(self).sccs@.len() >= old(self).sccs@.len(),
            final(self).sccs@.take(old(self).sccs@.len() as int) == old(self).sccs@,
            forall|x: int| 0 <= x < g.n() && old(self).idx@[x] != 0 ==> final(self).idx@[x] == old(self).idx@[x],
            forall|x: int| 0 <= x < g.n() && old(self).idx@[x] != 0 ==> final(self).low@[x] == old(self).low@[x],
            forall|x: int| 0 <= x < g.n() && old(self).comp@[x] != 0 ==> final(self).comp@[x] == old(self).comp@[x],
            count_where(final(self).idx@, unvisited()) < count_where(old(self).idx@, unvisited()),
            final(self).counter >= old(self).counter,
            final(self).sccs@.len() - old(self).sccs@.len() <= final(self).counter - old(self).counter,
        decreases count_where(old(self).idx@, unvisited()),
    {
        let n = g.names.len();
        let bottom = self.stack.len();
        let ghost n0 = count_where(self.idx@, unvisited());
        let ghost entry = *self;
        proof {
            lemma_count_update(self.idx@, v as int, 1usize, unvisited());
        }
        let c = self.counter + 1;
        proof {
            lemma_count_update(self.idx@, v as int, c, unvisited());
        }
        self.idx.set(v, c);
        self.low.set(v, c);
        self.counter = c;
        let ghost sb = self.stack@;
        self.stack.push(v);
        self.on_stack.set(v, true);
        proof {
            assert(!occurs(sb, v as int));
            assert(self.stack@.no_duplicates()) by {
                assert forall|a: int, b: int| 0 <= a < self.stack@.len() && 0 <= b < self.stack@.len() && a != b implies self.stack@[a]
                    != self.stack@[b] by {
                    if a == sb.len() && b < sb.len() {
                        assert(sb[b] == self.stack@[b]);
                        if self.stack@[a] == self.stack@[b] {
                            assert(occurs(sb, v as int));
                        }
                    } else if b == sb.len() && a < sb.len() {
                        assert(sb[a] == self.stack@[a]);
                        if self.stack@[a] == self.stack@[b] {
                            assert(occurs(sb, v as int));
                        }
                    }
                }
            }
            assert forall|x: int| 0 <= x < n implies (self.on_stack@[x] <==> occurs(self.stack@, x)) by {
                lemma_occurs_push(sb, v, x);
            }
            assert forall|a: int, b: int| 0 <= a < b < self.stack@.len() implies self.idx@[#[trigger] self.stack@[a] as int]
                < self.idx@[#[trigger] self.stack@[b] as int] by {
                assert(self.stack@[a] == sb[a]);
                assert(entry.idx@[sb[a] as int] <= entry.counter);
                if b < sb.len() {
                    assert(self.stack@[b] == sb[b]);
                    assert(sb[a] != v && sb[b] != v) by {
                        assert(occurs(sb, sb[a] as int));
                        assert(occurs(sb, sb[b] as int));
                    }
                } else {
                    assert(sb[a] != v) by {
                        assert(occurs(sb, sb[a] as int));
                    }
                }
            }
            assert(self.searched(*g));
        }
        let ghost pushed = self.stack@;
        let row = &g.succ[v];
        let mut k: usize = 0;
        while k < row.len()
            invariant
                g.wf(),
                n == g.n(),
                v < n,
                row@ == g.succ@[v as int]@,
                k <= row.len(),
                self.inv(n as nat),
                self.idx@[v as int] != 0,
                self.stack@.len() >= pushed.len(),
                self.stack@.take(pushed.len() as int) == pushed,
                pushed.len() == entry.stack@.len() + 1,
                pushed.take(entry.stack@.len() as int) == entry.stack@,
                pushed[entry.stack@.len() as int] == v,
                self.sccs@.len() >= entry.sccs@.len(),
                self.sccs@.take(entry.sccs@.len() as int) == entry.sccs@,
                forall|x: int| 0 <= x < n && entry.idx@[x] != 0 ==> self.idx@[x] == entry.idx@[x],
                forall|x: int| 0 <= x < n && entry.idx@[x] != 0 ==> self.low@[x] == entry.low@[x],
                entry.idx@[v as int] == 0,
                inside.contains(v as int),
                forall|x: int, y: int| inside.contains(x) && #[trigger] g.edge(x, y) ==> inside.contains(y),
                forall|x: int| 0 <= x < n && self.idx@[x] != 0 ==> inside.contains(x),
                forall|x: int| 0 <= x < n && entry.comp@[x] != 0 ==> self.comp@[x] == entry.comp@[x],
                count_where(self.idx@, unvisited()) < n0,
                n0 == count_where(entry.idx@, unvisited()),
                n0 == count_where(old(self).idx@, unvisited()),
                self.counter > entry.counter,
                self.sccs@.len() - entry.sccs@.len() + 1 <= self.counter - entry.counter,
                self.session(n as nat, base),
                self.idx@[v as int] == entry.counter + 1,
                self.low@[v as int] <= self.idx@[v as int],
                self.searched(*g),
                forall|a: int|
                    pushed.len() <= a < self.stack@.len() ==> self.finished(*g, #[trigger] self.stack@[a] as int)
                        && self.low@[v as int] <= self.low@[self.stack@[a] as int],
                forall|j: int|
                    0 <= j < k ==> self.idx@[#[trigger] row@[j] as int] != 0 && (self.on_stack@[row@[j] as int]
                        ==> self.low@[v as int] <= self.idx@[row@[j] as int]),
                forall|x: int| 0 <= x < n && entry.idx@[x] != 0 && #[trigger] self.on_stack@[x] ==> entry.on_stack@[x],
            decreases row.len() - k,
        {
            let w = row[k];
            let ghost it = *self;
            assert(w < n);
            if self.idx[w] == 0 {
                let ghost before = *self;
                proof {
                    assert(occurs(g.succ@[v as int]@, w as int)) by {
                        assert(g.succ@[v as int]@[k as int] == w);
                    }
                    assert(g.edge(v as int, w as int));
                }
                self.strongconnect(g, w, Ghost(base), Ghost(inside));
                proof {
                    assert(self.stack@.take(pushed.len() as int) =~= before.stack@.take(before.stack@.len() as int).take(
                        pushed.len() as int,
                    ));
                    assert(self.sccs@.take(entry.sccs@.len() as int) =~= self.sccs@.take(before.sccs@.len() as int).take(
                        entry.sccs@.len() as int,
                    ));
                }
                let wl = self.low[w];
                if wl < self.low[v] {
                    self.low.set(v, wl);
                }
            } else if self.on_stack[w] {
                let wi = self.idx[w];
                if wi < self.low[v] {
                    self.low.set(v, wi);
                }
            }
            proof {
                assert(self.stack@.take(it.stack@.len() as int) == it.stack@);
                assert(!occurs(pushed.take(entry.stack@.len() as int), v as int)) by {
                    assert(!occurs(entry.stack@, v as int));
                }
                assert forall|a: int|
                    pushed.len() <= a < self.stack@.len() implies self.finished(*g, #[trigger] self.stack@[a] as int)
                        && self.low@[v as int] <= self.low@[self.stack@[a] as int] by {
                    let u = self.stack@[a] as int;
                    assert(u != v) by {
                        assert(self.stack@[pushed.len() - 1] == v) by {
                            assert(self.stack@.take(pushed.len() as int)[pushed.len() - 1] == pushed[pushed.len() - 1]);
                        }
                        assert(self.stack@.no_duplicates());
                    }
                    if a < it.stack@.len() {
                        assert(it.stack@[a] == u);
                        assert(it.finished(*g, u));
                        assert(it.idx@[u] != 0) by {
                            assert(occurs(it.stack@, u));
                        }
                        assert(self.low@[u] == it.low@[u]);
                        assert forall|y: int| #[trigger] g.edge(u, y) implies self.idx@[y] != 0 && (self.on_stack@[y]
                            ==> self.low@[u] <= self.idx@[y]) by {
                            assert(it.idx@[y] != 0);
                            lemma_edge_bounded(*g, u, y);
                            assert(self.idx@[y] == it.idx@[y]);
                            if self.on_stack@[y] {
                                assert(it.on_stack@[y]);
                            }
                        }
                    }
                }
                assert forall|j: int|
                    0 <= j < k + 1 implies self.idx@[#[trigger] row@[j] as int] != 0 && (self.on_stack@[row@[j] as int]
                        ==> self.low@[v as int] <= self.idx@[row@[j] as int]) by {
                    let y = row@[j] as int;
                    assert(y < n);
                    if j < k {
                        assert(it.idx@[y] != 0);
                        assert(self.idx@[y] == it.idx@[y]);
                        if self.on_stack@[y] {
                            assert(it.on_stack@[y]);
                        }
                    }
                }
            }
            k = k + 1;
        }
        proof {
            assert forall|y: int| #[trigger] g.edge(v as int, y) implies self.idx@[y] != 0 && (self.on_stack@[y]
                ==> self.low@[v as int] <= self.idx@[y]) by {
                let j = choose|j: int| 0 <= j < row@.len() && row@[j] == y;
                assert(row@[j] == y);
            }
            assert(self.finished(*g, v as int));
        }
        if self.low[v] == self.idx[v] {
            let ghost before_pop = *self;
            let mut scc: Vec<usize> = Vec::new();
            let knum = self.sccs.len() + 1;
            proof {
                assert(self.stack@[bottom as int] == v) by {
                    assert(self.stack@.take(pushed.len() as int)[bottom as int] == pushed[bottom as int]);
                }
            }
            loop
                invariant_except_break
                    bottom < self.stack@.len(),
                    self.stack@[bottom as int] == v,
                invariant
                    n == g.n(),
                    v < n,
                    bottom == entry.stack@.len(),
                    self.stack@.no_duplicates(),
                    self.stack@.take(bottom as int) == entry.stack@,
                    knum == self.sccs@.len() + 1,
                    self.sccs@ == before_pop.sccs@,
                    self.on_stack@.len() == n,
                    self.idx@ == before_pop.idx@,
                    self.low@ == before_pop.low@,
                    self.counter == before_pop.counter,
                    self.comp@.len() == n,
                    before_pop.inv(n as nat),
                    forall|a: int| 0 <= a < self.stack@.len() ==> self.stack@[a] < n,
                    forall|x: int| 0 <= x < n ==> (self.on_stack@[x] <==> occurs(self.stack@, x)),
                    forall|x: int|
                        0 <= x < n ==> (self.idx@[x] != 0 <==> (self.on_stack@[x] || self.comp@[x] != 0)),
                    forall|x: int| 0 <= x < n ==> !(self.on_stack@[x] && self.comp@[x] != 0),
                    forall|x: int| 0 <= x < n ==> self.comp@[x] <= knum,
                    forall|x: int| 0 <= x < n ==> (occurs(scc@, x) <==> self.comp@[x] == knum),
                    forall|x: int|
                        0 <= x < n && before_pop.comp@[x] != 0 ==> self.comp@[x] == before_pop.comp@[x],
                    forall|x: int|
                        0 <= x < n && before_pop.comp@[x] == 0 ==> (self.comp@[x] == 0 || self.comp@[x] == knum),
                    forall|a: int| 0 <= a < scc@.len() ==> scc@[a] < n,
                    scc@.no_duplicates(),
                ensures
                    before_pop.inv(n as nat),
                    self.stack@ == entry.stack@,
                    scc@.len() > 0,
                    self.sccs@ == before_pop.sccs@,
                    knum == self.sccs@.len() + 1,
                    self.on_stack@.len() == n,
                    self.idx@ == before_pop.idx@,
                    self.low@ == before_pop.low@,
                    self.counter == before_pop.counter,
                    self.comp@.len() == n,
                    self.stack@.no_duplicates(),
                    forall|a: int| 0 <= a < self.stack@.len() ==> self.stack@[a] < n,
                    forall|x: int| 0 <= x < n ==> (self.on_stack@[x] <==> occurs(self.stack@, x)),
                    forall|x: int|
                        0 <= x < n ==> (self.idx@[x] != 0 <==> (self.on_stack@[x] || self.comp@[x] != 0)),
                    forall|x: int| 0 <= x < n ==> !(self.on_stack@[x] && self.comp@[x] != 0),
                    forall|x: int| 0 <= x < n ==> self.comp@[x] <= knum,
                    forall|x: int| 0 <= x < n ==> (occurs(scc@, x) <==> self.comp@[x] == knum),
                    forall|x: int|
                        0 <= x < n && before_pop.comp@[x] != 0 ==> self.comp@[x] == before_pop.comp@[x],
                    forall|x: int|
                        0 <= x < n && before_pop.comp@[x] == 0 ==> (self.comp@[x] == 0 || self.comp@[x] == knum),
                    forall|a: int| 0 <= a < scc@.len() ==> scc@[a] < n,
                    scc@.no_duplicates(),
                decreases self.stack@.len(),
            {
                let ghost st = self.stack@;
                let ghost sc = scc@;
                let w = match self.stack.pop() {
                    Some(w) => w,
                    None => {
                        proof {
                            assert(false);
                        }
                        0
                    },
                };
                assert(st == self.stack@.push(w));
                assert(w < n);
                self.on_stack.set(w, false);
                self.comp.set(w, knum);
                scc.push(w);
                proof {
                    assert(!occurs(self.stack@, w as int)) by {
                        if occurs(self.stack@, w as int) {
                            let q = choose|q: int| 0 <= q < self.stack@.len() && self.stack@[q] == w;
                            assert(st[q] == st[st.len() - 1]);
                        }
                    }
                    assert(!occurs(sc, w as int)) by {
                        assert(occurs(st, w as int)) by {
                            assert(st[st.len() - 1] == w);
                        }
                    }
                    assert forall|x: int| 0 <= x < n implies (self.on_stack@[x] <==> occurs(self.stack@, x)) by {
                        lemma_occurs_push(self.stack@, w, x);
                    }
                    assert forall|x: int| 0 <= x < n implies (occurs(scc@, x) <==> self.comp@[x] == knum) by {
                        lemma_occurs_push(sc, w, x);
                    }
                    assert(scc@.no_duplicates()) by {
                        assert forall|a: int, b: int| 0 <= a < scc@.len() && 0 <= b < scc@.len() && a != b implies scc@[a]
                            != scc@[b] by {
                            if a == sc.len() && b < sc.len() {
                                assert(sc[b] == scc@[b]);
                                if scc@[a] == scc@[b] {
                                    assert(occurs(sc, w as int));
                                }
                            } else if b == sc.len() && a < sc.len() {
                                assert(sc[a] == scc@[a]);
                                if scc@[a] == scc@[b] {
                                    assert(occurs(sc, w as int));
                                }
                            }
                        }
                    }
                    assert(self.stack@.no_duplicates());
                }
                if w == v {
                    proof {
                        if self.stack@.len() > bottom {
                            assert(st[bottom as int] == v);
                            assert(st[st.len() - 1] == v);
                        }
                        assert(self.stack@ =~= self.stack@.take(bottom as int));
                    }
                    break;
                }
                proof {
                    if self.stack@.len() == bottom {
                        assert(st[bottom as int] == v);
                    }
                    assert(self.stack@.take(bottom as int) =~= st.take(bottom as int));
                    assert(self.stack@[bottom as int] == st[bottom as int]);
                }
            }
            let ghost sccs_before = self.sccs@;
            self.sccs.push(scc);
            proof {
                assert forall|kk: int, x: int|
                    0 <= kk < self.sccs@.len() && 0 <= x < n implies (#[trigger] occurs(self.sccs@[kk]@, x) <==> self.comp@[x]
                    == kk + 1) by {
                    if kk < sccs_before.len() {
                        assert(self.sccs@[kk] == sccs_before[kk]);
                        if before_pop.comp@[x] != 0 {
                            assert(self.comp@[x] == before_pop.comp@[x]);
                        } else {
                            assert(!occurs(before_pop.sccs@[kk]@, x));
                        }
                    }
                }
                assert(self.sccs@.take(entry.sccs@.len() as int) =~= sccs_before.take(entry.sccs@.len() as int));
                assert(self.stack@ =~= before_pop.stack@.take(bottom as int));
                assert forall|a: int|
                    bottom <= a < before_pop.stack@.len() implies before_pop.finished(*g, #[trigger] before_pop.stack@[a] as int)
                        && before_pop.low@[v as int] <= before_pop.low@[before_pop.stack@[a] as int] by {
                    if a == bottom {
                        assert(before_pop.stack@[a] == v);
                    }
                }
                lemma_emit_closed(*g, before_pop, *self, bottom as int, v as int, knum as nat);
                assert(self.searched(*g));
            }
        }
    }
}


fn zeros(n: usize) -> (v: Vec<usize>)
    ensures
        v@.len() == n,
        forall|i: int| 0 <= i < n ==> v@[i] == 0,
        count_where(v@, unvisited()) == n,
{
    let mut v: Vec<usize> = Vec::new();
    while v.len() < n
        invariant
            v@.len() <= n,
            forall|i: int| 0 <= i < v@.len() ==> v@[i] == 0,
            count_where(v@, unvisited()) == v@.len(),
        decreases n - v@.len(),
    {
        let ghost before = v@;
        v.push(0);
        assert(v@.drop_last() =~= before);
    }
    v
}

/// `x` lies in one of the groups.
pub open spec fn grouped(groups: Seq<Vec<usize>>, x: int) -> bool {
    exists|k: int| 0 <= k < groups.len() && occurs(#[trigger] groups[k]@, x)
}

/// The groups are nonempty lists of distinct vertices below `n`, and no vertex
/// lies in two of them.
pub open spec fn disjoint_groups(groups: Seq<Vec<usize>>, n: nat) -> bool {
    &&& forall|k: int| 0 <= k < groups.len() ==> (#[trigger] groups[k]@).len() > 0
    &&& forall|k: int| 0 <= k < groups.len() ==> (#[trigger] groups[k]@).no_duplicates()
    &&& forall|k: int, a: int| 0 <= k < groups.len() && 0 <= a < groups[k]@.len() ==> (#[trigger] groups[k]@[a]) < n
    &&& forall|k1: int, k2: int, x: int|
        0 <= k1 < k2 < groups.len() && #[trigger] occurs(groups[k1]@, x) ==> !#[trigger] occurs(groups[k2]@, x)
}

/// Every edge out of a group leads into the same group or an earlier one.
#[verifier::opaque]
pub open spec fn edges_lead_back(groups: Seq<Vec<usize>>, g: NameGraph) -> bool {
    forall|k: int, x: int, y: int|
        0 <= k < groups.len() && #[trigger] occurs(groups[k]@, x) && #[trigger] g.edge(x, y) ==> exists|k2: int|
            0 <= k2 <= k && occurs(#[trigger] groups[k2]@, y)
}

/// Tarjan's search started from each of `roots`, in turn, that is still
/// unvisited; the components in the order they are closed, each listed in the
/// order its vertices leave the stack.
pub fn find_sccs(g: &NameGraph, roots: &Vec<usize>) -> (sccs: Vec<Vec<usize>>)
    requires
        g.wf(),
        forall|k: int| 0 <= k < roots@.len() ==> roots@[k] < g.n(),
        forall|x: int, y: int| occurs(roots@, x) && #[trigger] g.edge(x, y) ==> occurs(roots@, y),
    ensures
        disjoint_groups(sccs@, g.n()),
        forall|k: int| 0 <= k < roots@.len() ==> grouped(sccs@, #[trigger] roots@[k] as int),
        forall|x: int| grouped(sccs@, x) ==> occurs(roots@, x),
        edges_lead_back(sccs@, *g),
{
    let n = g.names.len();
    let mut t = Tarjan {
        counter: 0,
        stack: Vec::new(),
        on_stack: flags(n),
        idx: zeros(n),
        low: zeros(n),
        comp: zeros(n),
        sccs: Vec::new(),
    };
    let ghost inside = Set::new(|x: int| occurs(roots@, x));
    let mut i: usize = 0;
    while i < roots.len()
        invariant
            g.wf(),
            n == g.n(),
            inside == Set::new(|x: int| occurs(roots@, x)),
            forall|x: int| 0 <= x < n && t.idx@[x] != 0 ==> inside.contains(x),
            forall|x: int, y: int| occurs(roots@, x) && #[trigger] g.edge(x, y) ==> occurs(roots@, y),
            i <= roots.len(),
            forall|k: int| 0 <= k < roots@.len() ==> roots@[k] < n,
            t.inv(n as nat),
            t.searched(*g),
            t.stack@.len() == 0,
            forall|k: int| 0 <= k < i ==> t.idx@[#[trigger] roots@[k] as int] != 0,
        decreases roots.len() - i,
    {
        let r = roots[i];
        if t.idx[r] == 0 {
            let ghost before = t;
            proof {
                assert(inside.contains(r as int)) by {
                    assert(roots@[i as int] == r);
                }
                assert forall|x: int, y: int| inside.contains(x) && #[trigger] g.edge(x, y) implies inside.contains(y) by {
                }
            }
            t.strongconnect(g, r, Ghost(t.counter as int), Ghost(inside));
            proof {
                assert forall|k: int| 0 <= k < i + 1 implies t.idx@[#[trigger] roots@[k] as int] != 0 by {
                    if k < i {
                        assert(before.idx@[roots@[k] as int] != 0);
                    }
                }
            }
        }
        i = i + 1;
    }
    proof {
        assert forall|k: int| 0 <= k < roots@.len() implies grouped(t.sccs@, #[trigger] roots@[k] as int) by {
            let x = roots@[k] as int;
            assert(t.idx@[x] != 0);
            assert(!occurs(t.stack@, x));
            let c = t.comp@[x];
            assert(occurs(t.sccs@[c - 1]@, x));
        }
        assert forall|x: int| grouped(t.sccs@, x) implies occurs(roots@, x) by {
            let k = choose|k: int| 0 <= k < t.sccs@.len() && occurs(#[trigger] t.sccs@[k]@, x);
            let q = choose|q: int| 0 <= q < t.sccs@[k]@.len() && t.sccs@[k]@[q] == x;
            assert(t.sccs@[k]@[q] < n);
            assert(t.comp@[x] == k + 1);
            assert(inside.contains(x));
        }
        assert forall|k1: int, k2: int, x: int|
            0 <= k1 < k2 < t.sccs@.len() && #[trigger] occurs(t.sccs@[k1]@, x) implies !#[trigger] occurs(t.sccs@[k2]@, x) by {
            let q = choose|q: int| 0 <= q < t.sccs@[k1]@.len() && t.sccs@[k1]@[q] == x;
            assert(t.sccs@[k1]@[q] < n);
        }
        reveal(edges_lead_back);
        assert forall|k: int, x: int, y: int|
            0 <= k < t.sccs@.len() && #[trigger] occurs(t.sccs@[k]@, x) && #[trigger] g.edge(x, y) implies exists|k2: int|
                0 <= k2 <= k && occurs(#[trigger] t.sccs@[k2]@, y) by {
            let q = choose|q: int| 0 <= q < t.sccs@[k]@.len() && t.sccs@[k]@[q] == x;
            assert(t.sccs@[k]@[q] < n);
            assert(t.comp@[x] == k + 1);
            lemma_edge_bounded(*g, x, y);
            assert(t.comp@[y] != 0 && t.comp@[y] <= t.comp@[x]);
            let k2 = t.comp@[y] - 1;
            assert(occurs(t.sccs@[k2]@, y));
        }
    }
    t.sccs
}


/// The groups one after the other.
pub open spec fn flat(groups: Seq<Vec<usize>>) -> Seq<usize>
    decreases groups.len(),
{
    if groups.len() == 0 {
        Seq::empty()
    } else {
        flat(groups.drop_last()) + groups.last()@
    }
}

pub proof fn lemma_flat_occurs(groups: Seq<Vec<usize>>, x: int)
    ensures
        occurs(flat(groups), x) <==> grouped(groups, x),
    decreases groups.len(),
{
    if groups.len() > 0 {
        let init = groups.drop_last();
        lemma_flat_occurs(init, x);
        let f = flat(init);
        let l = groups.last()@;
        if occurs(flat(groups), x) {
            let q = choose|q: int| 0 <= q < flat(groups).len() && flat(groups)[q] == x;
            if q < f.len() {
                assert(occurs(f, x));
                let k = choose|k: int| 0 <= k < init.len() && occurs(#[trigger] init[k]@, x);
                assert(groups[k] == init[k]);
            } else {
                assert(l[q - f.len()] == x);
                assert(occurs(groups[groups.len() - 1]@, x));
            }
        }
        if grouped(groups, x) {
            let k = choose|k: int| 0 <= k < groups.len() && occurs(#[trigger] groups[k]@, x);
            if k < groups.len() - 1 {
                assert(init[k] == groups[k]);
                assert(grouped(init, x));
                let q = choose|q: int| 0 <= q < f.len() && f[q] == x;
                assert(flat(groups)[q] == x);
            } else {
                let q = choose|q: int| 0 <= q < l.len() && l[q] == x;
                assert(flat(groups)[f.len() + q] == x);
            }
        }
    }
}

/// Disjoint groups hold at most `n` vertices in all.
pub proof fn lemma_flat_bounded(groups: Seq<Vec<usize>>, n: nat)
    requires
        disjoint_groups(groups, n),
    ensures
        flat(groups).no_duplicates(),
        forall|a: int| 0 <= a < flat(groups).len() ==> flat(groups)[a] < n,
        flat(groups).len() <= n,
    decreases groups.len(),
{
    if groups.len() > 0 {
        let init = groups.drop_last();
        assert(disjoint_groups(init, n)) by {
            assert forall|k1: int, k2: int, x: int|
                0 <= k1 < k2 < init.len() && #[trigger] occurs(init[k1]@, x) implies !#[trigger] occurs(init[k2]@, x) by {
                assert(init[k1] == groups[k1]);
                assert(init[k2] == groups[k2]);
            }
            assert forall|k: int, a: int| 0 <= k < init.len() && 0 <= a < init[k]@.len() implies (#[trigger] init[k]@[a]) < n by {
                assert(init[k] == groups[k]);
            }
            assert forall|k: int| 0 <= k < init.len() implies (#[trigger] init[k]@).no_duplicates() by {
                assert(init[k] == groups[k]);
            }
            assert forall|k: int| 0 <= k < init.len() implies (#[trigger] init[k]@).len() > 0 by {
                assert(init[k] == groups[k]);
            }
        }
        lemma_flat_bounded(init, n);
        let f = flat(init);
        let l = groups.last()@;
        let all = flat(groups);
        assert(all == f + l);
        assert forall|a: int| 0 <= a < all.len() implies all[a] < n by {
            if a >= f.len() {
                assert(all[a] == l[a - f.len()]);
                assert(groups[groups.len() - 1]@[a - f.len()] < n);
            }
        }
        assert forall|a: int, b: int| 0 <= a < all.len() && 0 <= b < all.len() && a != b implies all[a] != all[b] by {
            if a < f.len() && b >= f.len() {
                if all[a] == all[b] {
                    let x = all[a] as int;
                    assert(occurs(f, x));
                    lemma_flat_occurs(init, x);
                    let k = choose|k: int| 0 <= k < init.len() && occurs(#[trigger] init[k]@, x);
                    assert(init[k] == groups[k]);
                    assert(l[b - f.len()] == x);
                    assert(occurs(groups[groups.len() - 1]@, x));
                }
            } else if b < f.len() && a >= f.len() {
                if all[a] == all[b] {
                    let x = all[b] as int;
                    assert(occurs(f, x));
                    lemma_flat_occurs(init, x);
                    let k = choose|k: int| 0 <= k < init.len() && occurs(#[trigger] init[k]@, x);
                    assert(init[k] == groups[k]);
                    assert(l[a - f.len()] == x);
                    assert(occurs(groups[groups.len() - 1]@, x));
                }
            } else if a >= f.len() && b >= f.len() {
                assert(all[a] == l[a - f.len()]);
                assert(all[b] == l[b - f.len()]);
            } else {
                assert(all[a] == f[a]);
                assert(all[b] == f[b]);
            }
        }
        crate::namegraph::lemma_distinct_bounded(all, n);
    }
}

/// The group that holds `x`.
pub open spec fn group_of(groups: Seq<Vec<usize>>, x: int) -> int {
    choose|k: int| 0 <= k < groups.len() && occurs(#[trigger] groups[k]@, x)
}

proof fn lemma_group_of(groups: Seq<Vec<usize>>, n: nat, x: int, k: int)
    requires
        disjoint_groups(groups, n),
        0 <= k < groups.len(),
        occurs(groups[k]@, x),
    ensures
        group_of(groups, x) == k,
{
    let g = group_of(groups, x);
    assert(0 <= g < groups.len() && occurs(groups[g]@, x));
    if g < k {
        assert(!occurs(groups[k]@, x));
    } else if k < g {
        assert(!occurs(groups[g]@, x));
    }
}

proof fn lemma_edge_back(groups: Seq<Vec<usize>>, g: NameGraph, x: int, y: int)
    requires
        disjoint_groups(groups, g.n()),
        edges_lead_back(groups, g),
        grouped(groups, x),
        g.edge(x, y),
    ensures
        grouped(groups, y),
        group_of(groups, y) <= group_of(groups, x),
{
    reveal(edges_lead_back);
    let k = choose|k: int| 0 <= k < groups.len() && occurs(#[trigger] groups[k]@, x);
    lemma_group_of(groups, g.n(), x, k);
    assert(occurs(groups[k]@, x) && g.edge(x, y));
    let k2 = choose|k2: int| 0 <= k2 <= k && occurs(#[trigger] groups[k2]@, y);
    lemma_group_of(groups, g.n(), y, k2);
}

proof fn lemma_walk_back(groups: Seq<Vec<usize>>, g: NameGraph, c: Seq<int>, i: int, j: int)
    requires
        disjoint_groups(groups, g.n()),
        edges_lead_back(groups, g),
        0 <= i <= j < c.len(),
        grouped(groups, c[i]),
        forall|t: int| 0 <= t < c.len() - 1 ==> #[trigger] g.edge(c[t], c[t + 1]),
    ensures
        grouped(groups, c[j]),
        group_of(groups, c[j]) <= group_of(groups, c[i]),
    decreases j - i,
{
    if i < j {
        lemma_walk_back(groups, g, c, i, j - 1);
        assert(g.edge(c[j - 1], c[j - 1 + 1]));
        lemma_edge_back(groups, g, c[j - 1], c[j]);
    }
}

/// The vertices of a cycle lie in one component: edges out of a component
/// only lead back to it or to earlier ones, and going round the cycle comes
/// back to the start.
pub proof fn law_cycle_in_one_component(groups: Seq<Vec<usize>>, g: NameGraph, c: Seq<int>)
    requires
        disjoint_groups(groups, g.n()),
        edges_lead_back(groups, g),
        c.len() > 0,
        grouped(groups, c[0]),
        forall|t: int| 0 <= t < c.len() - 1 ==> #[trigger] g.edge(c[t], c[t + 1]),
        g.edge(c.last(), c[0]),
    ensures
        forall|t: int| 0 <= t < c.len() ==> grouped(groups, #[trigger] c[t]) && group_of(groups, c[t]) == group_of(groups, c[0]),
{
    let last = c.len() - 1;
    lemma_walk_back(groups, g, c, 0, last);
    lemma_edge_back(groups, g, c[last], c[0]);
    assert forall|t: int| 0 <= t < c.len() implies grouped(groups, #[trigger] c[t]) && group_of(groups, c[t]) == group_of(groups, c[0]) by {
        lemma_walk_back(groups, g, c, 0, t);
        lemma_walk_back(groups, g, c, t, last);
    }
}

} // verus!
