use vstd::prelude::*;

use crate::util::bfs_directed::{walk_from, BreadthFirstDirectedPaths};
use crate::util::digraph::Digraph;

verus! {

/// `d` is the length of a shortest walk from `sources` to `x`.
pub open spec fn is_shortest(adj: Seq<Seq<usize>>, sources: Seq<usize>, x: usize, d: nat) -> bool {
    walk_from(adj, sources, x, d) && forall|len: nat| #[trigger]
        walk_from(adj, sources, x, len) ==> d <= len
}

/// `x` is a common ancestor of `a` and `b`, other than one of them, whose
/// shortest walks from `a` and from `b` add up to `len`.
pub open spec fn ancestral(
    adj: Seq<Seq<usize>>,
    a: Seq<usize>,
    b: Seq<usize>,
    x: usize,
    len: nat,
) -> bool {
    exists|da: nat, db: nat|
        0 < da && 0 < db && is_shortest(adj, a, x, da) && is_shortest(adj, b, x, db) && len == da
            + db
}

/// `c` is the first vertex of a shortest ancestral path between `a` and
/// `b`, of length `len`.
pub open spec fn shortest_ancestral(
    adj: Seq<Seq<usize>>,
    a: Seq<usize>,
    b: Seq<usize>,
    c: usize,
    len: nat,
) -> bool {
    &&& c < adj.len()
    &&& ancestral(adj, a, b, c, len)
    &&& forall|x: usize, l: nat| #[trigger] ancestral(adj, a, b, x, l) && x < adj.len() ==> len <= l
    &&& forall|x: usize, l: nat| #[trigger] ancestral(adj, a, b, x, l) && x < c ==> len < l
}

/// Some vertex is a common ancestor of `a` and `b`.
pub open spec fn has_ancestral(adj: Seq<Seq<usize>>, a: Seq<usize>, b: Seq<usize>) -> bool {
    exists|x: usize, l: nat| x < adj.len() && #[trigger] ancestral(adj, a, b, x, l)
}

proof fn lemma_shortest_unique(adj: Seq<Seq<usize>>, s: Seq<usize>, x: usize, d1: nat, d2: nat)
    requires
        is_shortest(adj, s, x, d1),
        is_shortest(adj, s, x, d2),
    ensures
        d1 == d2,
{
    assert(walk_from(adj, s, x, d1));
    assert(walk_from(adj, s, x, d2));
}

/// Shortest ancestral paths in a digraph.
pub struct Sap {
    g: Digraph,
}

impl Sap {
    pub closed spec fn graph(&self) -> Seq<Seq<usize>> {
        self.g@
    }

    /// The graph is well formed, and two distances within it add up
    /// without overflow.
    pub closed spec fn wf(&self) -> bool {
        self.g.wf() && self.g@.len() <= usize::MAX / 2
    }

    /// Works on the digraph `g`, which need not be acyclic.
    pub fn new(g: Digraph) -> (s: Sap)
        requires
            g.wf(),
            g@.len() <= usize::MAX / 2,
        ensures
            s.wf(),
            s.graph() == g@,
    {
        Sap { g }
    }

    /// Length of a shortest ancestral path between `v` and `w`; `None` if
    /// they have no common ancestor.
    pub fn length(&self, v: usize, w: usize) -> (r: Option<usize>)
        requires
            self.wf(),
            v < self.graph().len(),
            w < self.graph().len(),
        ensures
            r is Some <==> has_ancestral(self.graph(), seq![v], seq![w]),
            r matches Some(len) ==> exists|c: usize|
                shortest_ancestral(self.graph(), seq![v], seq![w], c, len as nat),
    {
        let a = vec![v];
        let b = vec![w];
        assert(a@ == seq![v]);
        assert(b@ == seq![w]);
        self.multi_length(a.as_slice(), b.as_slice())
    }

    /// A common ancestor of `v` and `w` on a shortest ancestral path, the
    /// first such vertex; `None` if they have none.
    pub fn ancestor(&self, v: usize, w: usize) -> (r: Option<usize>)
        requires
            self.wf(),
            v < self.graph().len(),
            w < self.graph().len(),
        ensures
            r is Some <==> has_ancestral(self.graph(), seq![v], seq![w]),
            r matches Some(c) ==> exists|len: nat|
                shortest_ancestral(self.graph(), seq![v], seq![w], c, len),
    {
        let a = vec![v];
        let b = vec![w];
        assert(a@ == seq![v]);
        assert(b@ == seq![w]);
        self.multi_ancestor(a.as_slice(), b.as_slice())
    }

    /// Length of a shortest ancestral path between a vertex of `v` and a
    /// vertex of `w`; `None` if there is none.
    pub fn multi_length(&self, v: &[usize], w: &[usize]) -> (r: Option<usize>)
        requires
            self.wf(),
            v@.len() > 0,
            w@.len() > 0,
            forall|i: int| 0 <= i < v@.len() ==> (#[trigger] v@[i]) < self.graph().len(),
            forall|i: int| 0 <= i < w@.len() ==> (#[trigger] w@[i]) < self.graph().len(),
        ensures
            r is Some <==> has_ancestral(self.graph(), v@, w@),
            r matches Some(len) ==> exists|c: usize|
                shortest_ancestral(self.graph(), v@, w@, c, len as nat),
    {
        let bfs_a = BreadthFirstDirectedPaths::new_multi(&self.g, v);
        let bfs_b = BreadthFirstDirectedPaths::new_multi(&self.g, w);
        let (_, length) = self.shortest_values(&bfs_a, &bfs_b);
        length
    }

    /// A common ancestor on a shortest ancestral path between a vertex of
    /// `v` and a vertex of `w`, the first such; `None` if there is none.
    pub fn multi_ancestor(&self, v: &[usize], w: &[usize]) -> (r: Option<usize>)
        requires
            self.wf(),
            v@.len() > 0,
            w@.len() > 0,
            forall|i: int| 0 <= i < v@.len() ==> (#[trigger] v@[i]) < self.graph().len(),
            forall|i: int| 0 <= i < w@.len() ==> (#[trigger] w@[i]) < self.graph().len(),
        ensures
            r is Some <==> has_ancestral(self.graph(), v@, w@),
            r matches Some(c) ==> exists|len: nat| shortest_ancestral(self.graph(), v@, w@, c, len),
    {
        let bfs_a = BreadthFirstDirectedPaths::new_multi(&self.g, v);
        let bfs_b = BreadthFirstDirectedPaths::new_multi(&self.g, w);
        let (ancestor, _) = self.shortest_values(&bfs_a, &bfs_b);
        ancestor
    }

    /// Sums the two searches' distances at each vertex and keeps the first
    /// least sum of two positive distances.
    fn shortest_values(
        &self,
        bfs_a: &BreadthFirstDirectedPaths,
        bfs_b: &BreadthFirstDirectedPaths,
    ) -> (r: (Option<usize>, Option<usize>))
        requires
            self.wf(),
            bfs_a.wf(),
            bfs_b.wf(),
            bfs_a.graph() == self.graph(),
            bfs_b.graph() == self.graph(),
        ensures
            r.0 is Some <==> has_ancestral(self.graph(), bfs_a.sources(), bfs_b.sources()),
            r.1 is Some <==> r.0 is Some,
            r.0 matches Some(c) ==> r.1 matches Some(len) && shortest_ancestral(
                self.graph(),
                bfs_a.sources(),
                bfs_b.sources(),
                c,
                len as nat,
            ),
    {
        let ghost adj = self.g@;
        let ghost sa = bfs_a.sources();
        let ghost sb = bfs_b.sources();
        let n = self.g.v();
        let mut common: usize = 0;
        let mut length: usize = usize::MAX;
        let mut v: usize = 0;
        while v < n
            invariant
                self.wf(),
                bfs_a.wf(),
                bfs_b.wf(),
                adj == self.g@,
                bfs_a.graph() == adj,
                bfs_b.graph() == adj,
                sa == bfs_a.sources(),
                sb == bfs_b.sources(),
                n == adj.len(),
                0 <= v <= n,
                length == usize::MAX ==> forall|x: usize, l: nat|
                    #[trigger] ancestral(adj, sa, sb, x, l) ==> x >= v,
                length < usize::MAX ==> common < v && ancestral(adj, sa, sb, common, length as nat),
                forall|x: usize, l: nat| #[trigger] ancestral(adj, sa, sb, x, l) && x < v ==> length <= l,
                forall|x: usize, l: nat|
                    #[trigger] ancestral(adj, sa, sb, x, l) && x < common ==> length < l,
                forall|x: usize, l: nat| #[trigger] ancestral(adj, sa, sb, x, l) && x < v ==> l < usize::MAX,
            decreases n - v,
        {
            let a = bfs_a.distance_to(v);
            let b = bfs_b.distance_to(v);
            proof {
                assert forall|l: nat| #[trigger] ancestral(adj, sa, sb, v, l) implies l == a + b && 0 < a
                    && 0 < b && a < n && b < n by {
                    let (da, db) = choose|da: nat, db: nat|
                        0 < da && 0 < db && is_shortest(adj, sa, v, da) && is_shortest(adj, sb, v, db)
                            && l == da + db;
                    assert(walk_from(adj, sa, v, da));
                    assert(walk_from(adj, sb, v, db));
                    lemma_shortest_unique(adj, sa, v, da, a as nat);
                    lemma_shortest_unique(adj, sb, v, db, b as nat);
                }
            }
            if a > 0 && b > 0 && a < usize::MAX && b < usize::MAX {
                proof {
                    assert(is_shortest(adj, sa, v, a as nat));
                    assert(is_shortest(adj, sb, v, b as nat));
                    assert(ancestral(adj, sa, sb, v, (a + b) as nat));
                }
                if a + b < length {
                    length = a + b;
                    common = v;
                }
            }
            v += 1;
        }
        if length < usize::MAX {
            (Some(common), Some(length))
        } else {
            (None, None)
        }
    }
}

} // verus!
