use vstd::prelude::*;

verus! {

/// Number of times `w` occurs in `s`.
pub open spec fn count_of(s: Seq<usize>, w: usize) -> nat
    decreases s.len(),
{
    if s.len() == 0 {
        0
    } else {
        count_of(s.drop_last(), w) + if s.last() == w {
            1nat
        } else {
            0nat
        }
    }
}

/// Number of edges into `w` from the first `k` adjacency lists.
pub open spec fn in_degree_upto(adj: Seq<Seq<usize>>, w: usize, k: int) -> nat
    decreases k,
{
    if k <= 0 {
        0
    } else {
        in_degree_upto(adj, w, k - 1) + count_of(adj[k - 1], w)
    }
}

/// Number of edges in the first `k` adjacency lists.
pub open spec fn edges_upto(adj: Seq<Seq<usize>>, k: int) -> nat
    decreases k,
{
    if k <= 0 {
        0
    } else {
        edges_upto(adj, k - 1) + adj[k - 1].len()
    }
}

pub open spec fn in_degree_of(adj: Seq<Seq<usize>>, w: usize) -> nat {
    in_degree_upto(adj, w, adj.len() as int)
}

pub open spec fn edge_total(adj: Seq<Seq<usize>>) -> nat {
    edges_upto(adj, adj.len() as int)
}

pub proof fn lemma_count_push(s: Seq<usize>, x: usize, w: usize)
    ensures
        count_of(s.push(x), w) == count_of(s, w) + if x == w {
            1nat
        } else {
            0nat
        },
{
    assert(s.push(x).drop_last() =~= s);
}

pub proof fn lemma_count_bound(s: Seq<usize>, w: usize)
    ensures
        count_of(s, w) <= s.len(),
    decreases s.len(),
{
    if s.len() > 0 {
        lemma_count_bound(s.drop_last(), w);
    }
}

/// Appending `x` to list `v` adds one edge, and one edge into `x`.
pub proof fn lemma_push_edge(adj: Seq<Seq<usize>>, v: int, x: usize, k: int)
    requires
        0 <= v < adj.len(),
        0 <= k <= adj.len(),
    ensures
        forall|w: usize|
            #[trigger] in_degree_upto(adj.update(v, adj[v].push(x)), w, k) == in_degree_upto(
                adj,
                w,
                k,
            ) + if v < k && x == w {
                1nat
            } else {
                0nat
            },
        edges_upto(adj.update(v, adj[v].push(x)), k) == edges_upto(adj, k) + if v < k {
            1nat
        } else {
            0nat
        },
    decreases k,
{
    let adj2 = adj.update(v, adj[v].push(x));
    if k > 0 {
        lemma_push_edge(adj, v, x, k - 1);
        assert forall|w: usize|
            #[trigger] in_degree_upto(adj2, w, k) == in_degree_upto(adj, w, k) + if v < k && x
                == w {
                1nat
            } else {
                0nat
            } by {
            lemma_count_push(adj[v], x, w);
            assert(in_degree_upto(adj2, w, k - 1) == in_degree_upto(adj, w, k - 1) + if v < k - 1
                && x == w {
                1nat
            } else {
                0nat
            });
        }
    }
}

pub proof fn lemma_in_degree_bound(adj: Seq<Seq<usize>>, w: usize, k: int)
    requires
        0 <= k <= adj.len(),
    ensures
        in_degree_upto(adj, w, k) <= edges_upto(adj, k),
    decreases k,
{
    if k > 0 {
        lemma_in_degree_bound(adj, w, k - 1);
        lemma_count_bound(adj[k - 1], w);
    }
}

/// A directed graph on the vertices `0..v`, kept as adjacency lists, with
/// the in-degree of each vertex and the number of edges.
#[derive(Debug, Clone)]
pub struct Digraph {
    vsize: usize,
    esize: usize,
    adj: Vec<Vec<usize>>,
    indegree: Vec<usize>,
}

impl View for Digraph {
    type V = Seq<Seq<usize>>;

    /// The adjacency lists: `self@[v]` lists the heads of the edges out of `v`.
    closed spec fn view(&self) -> Seq<Seq<usize>> {
        self.adj@.map_values(|l: Vec<usize>| l@)
    }
}

impl Digraph {
    /// The vertex count matches the lists, every edge ends at a vertex, and
    /// the counts agree with the lists.
    pub closed spec fn wf(&self) -> bool {
        &&& self.adj@.len() == self.vsize
        &&& self.indegree@.len() == self.vsize
        &&& forall|v: int, j: int|
            0 <= v < self@.len() && 0 <= j < self@[v].len() ==> #[trigger] self@[v][j]
                < self.vsize
        &&& forall|w: int| 0 <= w < self.vsize ==> #[trigger] self.indegree@[w] == in_degree_of(self@, w as usize)
        &&& self.esize == edge_total(self@)
    }

    /// Every edge ends at a vertex of the graph.
    pub proof fn lemma_targets(&self)
        requires
            self.wf(),
        ensures
            forall|v: int, j: int|
                0 <= v < self@.len() && 0 <= j < self@[v].len() ==> (#[trigger] self@[v][j])
                    < self@.len(),
    {
    }

    proof fn lemma_lists(&self)
        ensures
            self@.len() == self.adj@.len(),
            forall|i: int| 0 <= i < self@.len() ==> #[trigger] self@[i] == self.adj@[i]@,
    {
    }

    /// A graph of `vsize` vertices and no edge.
    pub fn new(vsize: usize) -> (g: Digraph)
        requires
            vsize > 0,
        ensures
            g.wf(),
            g@.len() == vsize,
            forall|v: int| 0 <= v < vsize ==> (#[trigger] g@[v]).len() == 0,
            edge_total(g@) == 0,
    {
        let mut adj: Vec<Vec<usize>> = Vec::new();
        let mut indegree: Vec<usize> = Vec::new();
        let mut i: usize = 0;
        while i < vsize
            invariant
                0 <= i <= vsize,
                adj@.len() == i,
                indegree@.len() == i,
                forall|k: int| 0 <= k < i ==> (#[trigger] adj@[k])@.len() == 0,
                forall|k: int| 0 <= k < i ==> #[trigger] indegree@[k] == 0,
            decreases vsize - i,
        {
            adj.push(Vec::new());
            indegree.push(0);
            i += 1;
        }
        let g = Digraph { vsize, esize: 0, adj, indegree };
        proof {
            g.lemma_lists();
            lemma_zero_upto(g@, vsize as int);
        }
        g
    }

    /// Number of vertices.
    pub fn v(&self) -> (r: usize)
        requires
            self.wf(),
        ensures
            r == self@.len(),
    {
        self.vsize
    }

    /// Number of edges.
    pub fn e(&self) -> (r: usize)
        requires
            self.wf(),
        ensures
            r == edge_total(self@),
    {
        self.esize
    }

    /// Whether `v` is a vertex of this graph.
    pub fn validate_vertex(&self, v: usize) -> (r: bool)
        requires
            self.wf(),
        ensures
            r == (v < self@.len()),
    {
        v < self.vsize
    }

    /// Adds the edge `v -> w`.
    pub fn add_edge(&mut self, v: usize, w: usize)
        requires
            old(self).wf(),
            v < old(self)@.len(),
            w < old(self)@.len(),
            edge_total(old(self)@) < usize::MAX,
        ensures
            final(self).wf(),
            final(self)@ == old(self)@.update(v as int, old(self)@[v as int].push(w)),
            edge_total(final(self)@) == edge_total(old(self)@) + 1,
    {
        let ghost before = self@;
        proof {
            self.lemma_lists();
            lemma_in_degree_bound(before, w, before.len() as int);
        }
        let mut list = self.adj[v].clone();
        assert(list@ =~= before[v as int]);
        list.push(w);
        self.adj.set(v, list);
        let d = self.indegree[w];
        self.indegree.set(w, d + 1);
        self.esize += 1;
        proof {
            assert(self@ =~= before.update(v as int, before[v as int].push(w)));
            lemma_push_edge(before, v as int, w, before.len() as int);
            assert forall|x: int| 0 <= x < self.vsize implies #[trigger] self.indegree@[x]
                == in_degree_of(self@, x as usize) by {
                assert(in_degree_upto(self@, x as usize, before.len() as int) == in_degree_upto(
                    before,
                    x as usize,
                    before.len() as int,
                ) + if v < before.len() && w == x as usize {
                    1nat
                } else {
                    0nat
                });
            }
        }
    }

    /// The heads of the edges out of `v`.
    pub fn adj(&self, v: usize) -> (r: &Vec<usize>)
        requires
            self.wf(),
            v < self@.len(),
        ensures
            r@ == self@[v as int],
    {
        proof {
            self.lemma_lists();
        }
        &self.adj[v]
    }

    /// Number of edges out of `v`.
    pub fn outdegree(&self, v: usize) -> (r: usize)
        requires
            self.wf(),
            v < self@.len(),
        ensures
            r == self@[v as int].len(),
    {
        proof {
            self.lemma_lists();
        }
        self.adj[v].len()
    }

    /// Number of edges into `v`.
    pub fn indegree(&self, v: usize) -> (r: usize)
        requires
            self.wf(),
            v < self@.len(),
        ensures
            r == in_degree_of(self@, v),
    {
        self.indegree[v]
    }

    /// The graph with every edge turned around: for each pair of vertices,
    /// as many edges `w -> v` as this graph has `v -> w`.
    pub fn reverse(&self) -> (r: Digraph)
        requires
            self.wf(),
            self@.len() > 0,
        ensures
            r.wf(),
            r@.len() == self@.len(),
            forall|v: usize, w: usize|
                v < self@.len() && w < self@.len() ==> #[trigger] count_of(r@[w as int], v)
                    == count_of(self@[v as int], w),
    {
        let n = self.v();
        let mut rev = Digraph::new(n);
        let ghost g = self@;
        let mut v: usize = 0;
        while v < n
            invariant
                0 <= v <= n,
                n == g.len(),
                g == self@,
                self.wf(),
                rev.wf(),
                rev@.len() == n,
                edge_total(rev@) == edges_upto(g, v as int),
                forall|a: usize, b: usize|
                    a < n && b < n ==> #[trigger] count_of(rev@[a as int], b) == if b < v {
                        count_of(g[b as int], a)
                    } else {
                        0
                    },
            decreases n - v,
        {
            let list = self.adj(v);
            let mut j: usize = 0;
            while j < list.len()
                invariant
                    0 <= v < n,
                    0 <= j <= list@.len(),
                    n == g.len(),
                    g == self@,
                    self.wf(),
                    list@ == g[v as int],
                    rev.wf(),
                    rev@.len() == n,
                    edge_total(rev@) == edges_upto(g, v as int) + j,
                    forall|a: usize, b: usize|
                        a < n && b < n ==> #[trigger] count_of(rev@[a as int], b) == if b < v {
                            count_of(g[b as int], a)
                        } else if b == v {
                            count_of(list@.take(j as int), a)
                        } else {
                            0
                        },
                decreases list@.len() - j,
            {
                let w = list[j];
                assert(w < n);
                proof {
                    lemma_edges_upto_mono(g, v as int + 1, n as int);
                }
                let ghost before = rev@;
                rev.add_edge(w, v);
                proof {
                    assert(list@.take(j + 1).drop_last() =~= list@.take(j as int));
                    assert forall|a: usize, b: usize| a < n && b < n implies #[trigger] count_of(
                        rev@[a as int],
                        b,
                    ) == if b < v {
                        count_of(g[b as int], a)
                    } else if b == v {
                        count_of(list@.take(j + 1), a)
                    } else {
                        0
                    } by {
                        if a == w {
                            lemma_count_push(before[a as int], v, b);
                        }
                    }
                }
                j += 1;
            }
            proof {
                assert(list@.take(list@.len() as int) =~= list@);
            }
            v += 1;
        }
        rev
    }
}

proof fn lemma_zero_upto(adj: Seq<Seq<usize>>, k: int)
    requires
        0 <= k <= adj.len(),
        forall|v: int| 0 <= v < adj.len() ==> (#[trigger] adj[v]).len() == 0,
    ensures
        edges_upto(adj, k) == 0,
        forall|w: usize| #[trigger] in_degree_upto(adj, w, k) == 0,
    decreases k,
{
    if k > 0 {
        lemma_zero_upto(adj, k - 1);
        assert forall|w: usize| #[trigger] in_degree_upto(adj, w, k) == 0 by {
            assert(in_degree_upto(adj, w, k - 1) == 0);
            lemma_count_bound(adj[k - 1], w);
        }
    }
}

proof fn lemma_edges_upto_mono(adj: Seq<Seq<usize>>, a: int, b: int)
    requires
        0 <= a <= b <= adj.len(),
    ensures
        edges_upto(adj, a) <= edges_upto(adj, b),
    decreases b - a,
{
    if a < b {
        lemma_edges_upto_mono(adj, a, b - 1);
    }
}

} // verus!
