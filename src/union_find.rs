use vstd::prelude::*;

verus! {

/// Number of entries of `s` equal to `r`.
pub open spec fn count_label(s: Seq<int>, r: int) -> nat
    decreases s.len(),
{
    if s.len() == 0 {
        0
    } else {
        count_label(s.drop_last(), r) + if s.last() == r {
            1nat
        } else {
            0nat
        }
    }
}

/// `s` with every `from` replaced by `to`.
pub open spec fn relabel(s: Seq<int>, from: int, to: int) -> Seq<int> {
    s.map_values(|x: int| if x == from { to } else { x })
}

proof fn lemma_count_bound(s: Seq<int>, r: int)
    ensures
        count_label(s, r) <= s.len(),
    decreases s.len(),
{
    if s.len() > 0 {
        lemma_count_bound(s.drop_last(), r);
    }
}

proof fn lemma_count_relabel(s: Seq<int>, from: int, to: int, r: int)
    requires
        from != to,
    ensures
        count_label(relabel(s, from, to), r) == if r == to {
            count_label(s, to) + count_label(s, from)
        } else if r == from {
            0
        } else {
            count_label(s, r)
        },
    decreases s.len(),
{
    if s.len() > 0 {
        lemma_count_relabel(s.drop_last(), from, to, r);
        assert(relabel(s, from, to).drop_last() =~= relabel(s.drop_last(), from, to));
    }
}

/// Disjoint sets over `0..n`, kept as a forest with union by size and path
/// halving.
pub struct UnionFind {
    index: Vec<usize>,
    size: Vec<usize>,
    /// The root of each element's tree.
    comp: Ghost<Seq<int>>,
    /// A level that grows from each node to its parent.
    rank: Ghost<Seq<int>>,
    max_rank: Ghost<int>,
}

impl UnionFind {
    /// Number of elements.
    pub closed spec fn len(&self) -> nat {
        self.index@.len()
    }

    /// `a` and `b` are in one set.
    pub closed spec fn same_set(&self, a: int, b: int) -> bool {
        self.comp@[a] == self.comp@[b]
    }

    /// Being in one set is reflexive, symmetric and transitive.
    pub proof fn lemma_same_set_equivalence(&self)
        ensures
            forall|a: int| #[trigger] self.same_set(a, a),
            forall|a: int, b: int| #[trigger] self.same_set(a, b) ==> self.same_set(b, a),
            forall|a: int, b: int, c: int|
                #[trigger] self.same_set(a, b) && #[trigger] self.same_set(b, c) ==> self.same_set(
                    a,
                    c,
                ),
    {
    }

    /// Each element's parent is in its set, each set has a root that is its
    /// own parent, levels grow towards the root, and a root's size counts
    /// its set.
    pub closed spec fn wf(&self) -> bool {
        let n = self.index@.len();
        let comp = self.comp@;
        &&& self.size@.len() == n
        &&& comp.len() == n
        &&& self.rank@.len() == n
        &&& forall|i: int| 0 <= i < n ==> (#[trigger] self.index@[i]) < n
        &&& forall|i: int| 0 <= i < n ==> 0 <= #[trigger] comp[i] < n
        &&& forall|i: int| 0 <= i < n ==> #[trigger] comp[self.index@[i] as int] == comp[i]
        &&& forall|i: int| 0 <= i < n ==> self.index@[#[trigger] comp[i]] == comp[i]
        &&& forall|i: int| 0 <= i < n && self.index@[i] == i ==> #[trigger] comp[i] == i
        &&& forall|i: int|
            0 <= i < n && self.index@[i] != i ==> self.rank@[i] < #[trigger] self.rank@[(
            self.index@[i] as int)]
        &&& forall|i: int| 0 <= i < n ==> 0 <= #[trigger] self.rank@[i] <= self.max_rank@
        &&& forall|i: int|
            0 <= i < n && self.index@[i] == i ==> #[trigger] self.size@[i] == count_label(comp, i)
    }

    /// `n` elements, each in a set of its own.
    pub fn new(size: usize) -> (u: UnionFind)
        ensures
            u.wf(),
            u.len() == size,
            forall|a: int, b: int|
                0 <= a < size && 0 <= b < size ==> (u.same_set(a, b) <==> a == b),
    {
        let mut index: Vec<usize> = Vec::new();
        let mut sizes: Vec<usize> = Vec::new();
        let mut i: usize = 0;
        while i < size
            invariant
                0 <= i <= size,
                index@.len() == i,
                sizes@.len() == i,
                forall|k: int| 0 <= k < i ==> #[trigger] index@[k] == k,
                forall|k: int| 0 <= k < i ==> #[trigger] sizes@[k] == 1,
            decreases size - i,
        {
            index.push(i);
            sizes.push(1);
            i += 1;
        }
        let ghost comp = Seq::new(size as nat, |k: int| k);
        proof {
            assert forall|k: int| 0 <= k < size implies #[trigger] count_label(comp, k) == 1 by {
                lemma_count_identity(size as int, k);
            }
        }
        UnionFind {
            index,
            size: sizes,
            comp: Ghost(comp),
            rank: Ghost(Seq::new(size as nat, |k: int| 0)),
            max_rank: Ghost(0),
        }
    }

    /// Joins the sets of `p` and `q`.
    pub fn union(&mut self, p: usize, q: usize)
        requires
            old(self).wf(),
            p < old(self).len(),
            q < old(self).len(),
        ensures
            final(self).wf(),
            final(self).len() == old(self).len(),
            forall|a: int, b: int|
                0 <= a < old(self).len() && 0 <= b < old(self).len() ==> (final(self).same_set(a, b)
                    <==> old(self).same_set(a, b) || (old(self).same_set(a, p as int)
                    && old(self).same_set(b, q as int)) || (old(self).same_set(a, q as int)
                    && old(self).same_set(b, p as int))),
    {
        let ghost before = self.comp@;
        let i = self.root(p);
        let j = self.root(q);
        if i == j {
            return;
        }
        let n = self.index.len();
        proof {
            lemma_count_bound(self.comp@, i as int);
            lemma_count_bound(self.comp@, j as int);
            assert(count_label(self.comp@, i as int) + count_label(self.comp@, j as int) <= n)
                by {
                lemma_count_relabel(self.comp@, i as int, j as int, j as int);
                lemma_count_bound(relabel(self.comp@, i as int, j as int), j as int);
            }
        }
        let si = self.size[i];
        let sj = self.size[j];
        let ghost comp = self.comp@;
        let ghost rank = self.rank@;
        if si < sj {
            self.index.set(i, j);
            self.size.set(j, sj + si);
            let ghost new_rank = if rank[j as int] > rank[i as int] {
                rank[j as int]
            } else {
                rank[i as int] + 1
            };
            proof {
                self.comp = Ghost(relabel(comp, i as int, j as int));
                self.rank = Ghost(rank.update(j as int, new_rank));
                if new_rank > self.max_rank@ {
                    self.max_rank = Ghost(new_rank);
                }
                self.lemma_linked(comp, rank, i as int, j as int);
            }
        } else {
            self.index.set(j, i);
            self.size.set(i, si + sj);
            let ghost new_rank = if rank[i as int] > rank[j as int] {
                rank[i as int]
            } else {
                rank[j as int] + 1
            };
            proof {
                self.comp = Ghost(relabel(comp, j as int, i as int));
                self.rank = Ghost(rank.update(i as int, new_rank));
                if new_rank > self.max_rank@ {
                    self.max_rank = Ghost(new_rank);
                }
                self.lemma_linked(comp, rank, j as int, i as int);
            }
        }
    }

    /// After root `from` was made a child of root `to`, with sets `comp`
    /// and levels `rank` before, the forest is well formed again.
    proof fn lemma_linked(&self, comp: Seq<int>, rank: Seq<int>, from: int, to: int)
        requires
            ({
                let n = self.index@.len();
                &&& self.size@.len() == n
                &&& comp.len() == n
                &&& rank.len() == n
                &&& 0 <= from < n
                &&& 0 <= to < n
                &&& from != to
                &&& comp[from] == from
                &&& comp[to] == to
                &&& self.index@[from] == to
                &&& forall|i: int| 0 <= i < n ==> (#[trigger] self.index@[i]) < n
                &&& forall|i: int| 0 <= i < n ==> 0 <= #[trigger] comp[i] < n
                &&& forall|i: int|
                    0 <= i < n && i != from ==> #[trigger] comp[self.index@[i] as int] == comp[i]
                &&& forall|i: int| 0 <= i < n ==> self.index@[#[trigger] comp[i]] == comp[i] || comp[i] == from
                &&& forall|i: int| 0 <= i < n && self.index@[i] == i ==> #[trigger] comp[i] == i
                &&& forall|i: int|
                    0 <= i < n && self.index@[i] != i && i != from ==> rank[i]
                        < #[trigger] rank[self.index@[i] as int]
                &&& forall|i: int| 0 <= i < n ==> 0 <= #[trigger] rank[i] <= self.max_rank@
                &&& self.comp@ == relabel(comp, from, to)
                &&& self.rank@ == rank.update(to, self.rank@[to])
                &&& self.rank@[to] >= rank[to]
                &&& self.rank@[to] > rank[from]
                &&& self.rank@[to] <= self.max_rank@
                &&& forall|i: int|
                    0 <= i < n && self.index@[i] == i && i != to ==> #[trigger] self.size@[i]
                        == count_label(comp, i)
                &&& self.size@[to] == count_label(comp, to) + count_label(comp, from)
            }),
        ensures
            self.wf(),
    {
        let n = self.index@.len();
        assert forall|r: int| 0 <= r < n && self.index@[r] == r implies #[trigger] self.size@[r]
            == count_label(self.comp@, r) by {
            lemma_count_relabel(comp, from, to, r);
        }
        assert forall|i: int| 0 <= i < n implies #[trigger] self.comp@[self.index@[i] as int]
            == self.comp@[i] by {
            if i == from {
            }
        }
        assert forall|i: int| 0 <= i < n && self.index@[i] != i implies self.rank@[i]
            < #[trigger] self.rank@[self.index@[i] as int] by {
            if i == from {
            } else if i == to {
            }
        }
    }

    /// Whether `p` and `q` are in one set.
    pub fn connected(&mut self, p: usize, q: usize) -> (r: bool)
        requires
            old(self).wf(),
            p < old(self).len(),
            q < old(self).len(),
        ensures
            final(self).wf(),
            final(self).len() == old(self).len(),
            forall|a: int, b: int| #[trigger] final(self).same_set(a, b) == old(self).same_set(a, b),
            r == old(self).same_set(p as int, q as int),
    {
        self.root(p) == self.root(q)
    }

    /// The root of the tree of `i`, halving the path to it on the way.
    fn root(&mut self, i: usize) -> (r: usize)
        requires
            old(self).wf(),
            i < old(self).len(),
        ensures
            final(self).wf(),
            final(self).len() == old(self).len(),
            final(self).comp@ == old(self).comp@,
            final(self).size@ == old(self).size@,
            final(self).rank@ == old(self).rank@,
            final(self).max_rank@ == old(self).max_rank@,
            forall|k: int|
                0 <= k < old(self).len() ==> (old(self).index@[k] == k
                    <==> #[trigger] final(self).index@[k] == k),
            r == old(self).comp@[i as int],
    {
        let mut idx = i;
        while idx != self.index[idx]
            invariant
                self.wf(),
                self.len() == old(self).len(),
                self.comp@ == old(self).comp@,
                self.size@ == old(self).size@,
                self.rank@ == old(self).rank@,
                self.max_rank@ == old(self).max_rank@,
                forall|k: int|
                    0 <= k < old(self).len() ==> (old(self).index@[k] == k <==> #[trigger] self.index@[k] == k),
                idx < self.len(),
                self.comp@[idx as int] == old(self).comp@[i as int],
            decreases self.max_rank@ - self.rank@[idx as int],
        {
            let parent = self.index[idx];
            let grand = self.index[parent];
            let ghost before = self.index@;
            self.index.set(idx, grand);
            proof {
                let n = self.index@.len();
                assert forall|k: int| 0 <= k < n implies self.index@[#[trigger] self.comp@[k]]
                    == self.comp@[k] by {
                    if self.comp@[k] == idx {
                        assert(before[idx as int] == idx);
                    }
                }
                assert forall|k: int| 0 <= k < n && self.index@[k] != k implies self.rank@[k]
                    < #[trigger] self.rank@[self.index@[k] as int] by {
                    if k == idx && grand != parent {
                        assert(self.rank@[parent as int] < self.rank@[grand as int]);
                    }
                }
            }
            idx = grand;
        }
        idx
    }
}

proof fn lemma_count_identity(n: int, k: int)
    requires
        0 <= k < n,
    ensures
        count_label(Seq::new(n as nat, |x: int| x), k) == 1,
    decreases n,
{
    let s = Seq::new(n as nat, |x: int| x);
    assert(s.drop_last() =~= Seq::new((n - 1) as nat, |x: int| x));
    if k < n - 1 {
        lemma_count_identity(n - 1, k);
    } else {
        lemma_count_none(n - 1, k);
    }
}

proof fn lemma_count_none(n: int, k: int)
    requires
        0 <= n <= k,
    ensures
        count_label(Seq::new(n as nat, |x: int| x), k) == 0,
    decreases n,
{
    if n > 0 {
        let s = Seq::new(n as nat, |x: int| x);
        assert(s.drop_last() =~= Seq::new((n - 1) as nat, |x: int| x));
        lemma_count_none(n - 1, k);
    }
}

} // verus!
