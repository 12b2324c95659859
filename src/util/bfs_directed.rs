use vstd::prelude::*;

use super::digraph::Digraph;
use std::collections::VecDeque;

verus! {

/// `p` is a walk in the graph with adjacency lists `adj`: vertices joined
/// by edges.
pub open spec fn is_walk(adj: Seq<Seq<usize>>, p: Seq<usize>) -> bool {
    &&& p.len() >= 1
    &&& forall|i: int| 0 <= i < p.len() ==> (#[trigger] p[i]) < adj.len()
    &&& forall|i: int| 0 < i < p.len() ==> adj[p[i - 1] as int].contains(#[trigger] p[i])
}

/// A walk of `len` edges leads from one of `sources` to `v`.
pub open spec fn walk_from(adj: Seq<Seq<usize>>, sources: Seq<usize>, v: usize, len: nat) -> bool {
    exists|p: Seq<usize>|
        is_walk(adj, p) && sources.contains(p[0]) && p.last() == v && p.len() == len + 1
}

/// Some walk leads from one of `sources` to `v`.
pub open spec fn reachable(adj: Seq<Seq<usize>>, sources: Seq<usize>, v: usize) -> bool {
    exists|len: nat| walk_from(adj, sources, v, len)
}

/// Number of `true` entries of `s`.
pub open spec fn count_true(s: Seq<bool>) -> nat
    decreases s.len(),
{
    if s.len() == 0 {
        0
    } else {
        count_true(s.drop_last()) + if s.last() {
            1nat
        } else {
            0nat
        }
    }
}

proof fn lemma_count_true_set(s: Seq<bool>, i: int)
    requires
        0 <= i < s.len(),
        !s[i],
    ensures
        count_true(s.update(i, true)) == count_true(s) + 1,
    decreases s.len(),
{
    let t = s.update(i, true);
    if i < s.len() - 1 {
        assert(t.drop_last() =~= s.drop_last().update(i, true));
        lemma_count_true_set(s.drop_last(), i);
    } else {
        assert(t.drop_last() =~= s.drop_last());
    }
}

proof fn lemma_count_true_bound(s: Seq<bool>)
    ensures
        count_true(s) <= s.len(),
    decreases s.len(),
{
    if s.len() > 0 {
        lemma_count_true_bound(s.drop_last());
    }
}

/// Shortest paths by breadth-first search from one or more sources of a
/// digraph.
pub struct BreadthFirstDirectedPaths {
    marked: Vec<bool>,
    edge_to: Vec<usize>,
    dist_to: Vec<usize>,
    adj: Ghost<Seq<Seq<usize>>>,
    sources: Ghost<Seq<usize>>,
}

impl BreadthFirstDirectedPaths {
    /// Adjacency lists of the graph searched.
    pub closed spec fn graph(&self) -> Seq<Seq<usize>> {
        self.adj@
    }

    /// The sources of the search.
    pub closed spec fn sources(&self) -> Seq<usize> {
        self.sources@
    }

    /// The vertex from which the search first reached `v`: its parent in
    /// the breadth-first tree.
    pub closed spec fn tree_parent(&self, v: usize) -> usize {
        self.edge_to@[v as int]
    }

    /// Number of edges on a shortest walk from a source to `v`.
    pub closed spec fn dist(&self, v: usize) -> usize {
        self.dist_to@[v as int]
    }

    /// The search ran to its end: the marked vertices are closed under
    /// edges, contain the sources, and each one's distance is that of the
    /// walk through `edge_to`.
    pub closed spec fn wf(&self) -> bool {
        let n = self.adj@.len();
        &&& self.marked@.len() == n
        &&& self.edge_to@.len() == n
        &&& self.dist_to@.len() == n
        &&& graph_ok(self.adj@)
        &&& forall|i: int| 0 <= i < self.sources@.len() ==> (#[trigger] self.sources@[i]) < n
        &&& search_state(self.adj@, self.sources@, self.marked@, self.edge_to@, self.dist_to@)
        &&& forall|v: int| 0 <= v < n && #[trigger] self.marked@[v] ==> self.dist_to@[v] < n
        &&& forall|u: int|
            0 <= u < n && #[trigger] self.marked@[u] ==> forall|k: int|
                0 <= k < self.adj@[u].len() ==> self.marked@[#[trigger] self.adj@[u][k] as int]
                    && self.dist_to@[self.adj@[u][k] as int] <= self.dist_to@[u] + 1
    }

    /// Searches from the single source `s`.
    pub fn new(g: &Digraph, s: usize) -> (b: Self)
        requires
            g.wf(),
            s < g@.len(),
        ensures
            b.wf(),
            b.graph() == g@,
            b.sources() == seq![s],
    {
        let sources = vec![s];
        Self::new_multi(g, sources.as_slice())
    }

    /// Searches from all of `sources` at once.
    #[verifier::rlimit(100)]
    pub fn new_multi(g: &Digraph, sources: &[usize]) -> (b: Self)
        requires
            g.wf(),
            sources@.len() > 0,
            forall|i: int| 0 <= i < sources@.len() ==> (#[trigger] sources@[i]) < g@.len(),
        ensures
            b.wf(),
            b.graph() == g@,
            b.sources() == sources@,
    {
        let n = g.v();
        let ghost adj = g@;
        proof {
            g.lemma_targets();
        }
        let mut marked: Vec<bool> = Vec::new();
        let mut edge_to: Vec<usize> = Vec::new();
        let mut dist_to: Vec<usize> = Vec::new();
        let mut i: usize = 0;
        while i < n
            invariant
                0 <= i <= n,
                marked@.len() == i,
                edge_to@.len() == i,
                dist_to@.len() == i,
                forall|k: int| 0 <= k < i ==> !(#[trigger] marked@[k]),
                forall|k: int| 0 <= k < i ==> #[trigger] dist_to@[k] == usize::MAX,
            decreases n - i,
        {
            marked.push(false);
            edge_to.push(0);
            dist_to.push(usize::MAX);
            i += 1;
        }
        assert(count_true(marked@) == 0) by {
            lemma_count_none(marked@);
        }
        let mut q: VecDeque<usize> = VecDeque::new();
        let ghost mut num_marked: nat = 0;
        let mut k: usize = 0;
        while k < sources.len()
            invariant
                0 <= k <= sources@.len(),
                n == adj.len(),
                graph_ok(adj),
                marked@.len() == n,
                edge_to@.len() == n,
                dist_to@.len() == n,
                forall|i: int| 0 <= i < sources@.len() ==> (#[trigger] sources@[i]) < n,
                num_marked == count_true(marked@),
                forall|v: int| 0 <= v < n && #[trigger] marked@[v] ==> dist_to@[v] == 0
                    && sources@.contains(v as usize),
                forall|v: int| 0 <= v < n && !(#[trigger] marked@[v]) ==> dist_to@[v] == usize::MAX,
                forall|i: int| 0 <= i < k ==> marked@[#[trigger] sources@[i] as int],
                forall|i: int| 0 <= i < q@.len() ==> (#[trigger] q@[i]) < n && marked@[q@[i] as int] && dist_to@[q@[i] as int] == 0,
                forall|v: int| 0 <= v < n && #[trigger] marked@[v] ==> q@.contains(v as usize),
            decreases sources@.len() - k,
        {
            let s = sources[k];
            let ghost old_marked = marked@;
            let ghost old_q = q@;
            if !marked[s] {
                proof {
                    lemma_count_true_set(marked@, s as int);
                    num_marked = num_marked + 1;
                }
            }
            marked.set(s, true);
            dist_to.set(s, 0);
            q.push_back(s);
            proof {
                if old_marked[s as int] {
                    assert(marked@ =~= old_marked);
                }
                assert(sources@.contains(s)) by {
                    assert(sources@[k as int] == s);
                }
                assert(q@[q@.len() - 1] == s);
                assert forall|v: int| 0 <= v < n && #[trigger] marked@[v] implies q@.contains(v as usize) by {
                    if v != s {
                        assert(old_marked[v]);
                        assert(old_q.contains(v as usize));
                        let j = choose|j: int| 0 <= j < old_q.len() && old_q[j] == v;
                        assert(q@[j] == v);
                    }
                }
            }
            k += 1;
        }
        proof {
            lemma_count_true_bound(marked@);
            assert forall|v: int| 0 <= v < n && #[trigger] marked@[v] implies dist_to@[v] < num_marked by {
                lemma_count_true_positive(marked@, v);
            }
        }
        while q.len() > 0
            invariant
                g.wf(),
                adj == g@,
                n == adj.len(),
                graph_ok(adj),
                marked@.len() == n,
                edge_to@.len() == n,
                dist_to@.len() == n,
                forall|i: int| 0 <= i < sources@.len() ==> (#[trigger] sources@[i]) < n,
                num_marked == count_true(marked@),
                num_marked <= n,
                search_state(adj, sources@, marked@, edge_to@, dist_to@),
                forall|v: int| 0 <= v < n && #[trigger] marked@[v] ==> dist_to@[v] < num_marked,
                queue_ok(q@, marked@, dist_to@, n as nat),
                q@.len() > 0 ==> forall|v: int|
                    0 <= v < n && #[trigger] marked@[v] ==> dist_to@[v] <= dist_to@[q@[0] as int] + 1,
                closed_except(adj, marked@, dist_to@, q@, -1),
            decreases 2 * (n - num_marked) + q@.len(),
        {
            let ghost q0 = q@;
            let ghost m0 = 2 * (n - num_marked) + q0.len();
            let ghost marked0 = marked@;
            let ghost dist0 = dist_to@;
            let u = q.pop_front().unwrap();
            let ghost rest = q@;
            let ghost mut extra: Seq<usize> = Seq::empty();
            let d = dist_to[u];
            let list = g.adj(u);
            proof {
                lemma_closed_after_pop(adj, marked@, dist_to@, q0, u);
                assert(rest =~= rest + extra);
                assert forall|i: int| 0 <= i < rest.len() implies #[trigger] d_bounds(dist0, rest[i], d) by {
                    assert(rest[i] == q0[i + 1]);
                    assert(dist0[q0[0] as int] <= dist0[q0[i + 1] as int]);
                }
            }
            let mut j: usize = 0;
            while j < list.len()
                invariant
                    g.wf(),
                    adj == g@,
                    n == adj.len(),
                    graph_ok(adj),
                    u < n,
                    list@ == adj[u as int],
                    0 <= j <= list@.len(),
                    marked@.len() == n,
                    edge_to@.len() == n,
                    dist_to@.len() == n,
                    marked0.len() == n,
                    dist0.len() == n,
                    forall|i: int| 0 <= i < sources@.len() ==> (#[trigger] sources@[i]) < n,
                    marked@[u as int],
                    d == dist_to@[u as int],
                    num_marked == count_true(marked@),
                    num_marked <= n,
                    d < num_marked,
                    search_state(adj, sources@, marked@, edge_to@, dist_to@),
                    forall|v: int| 0 <= v < n && #[trigger] marked@[v] ==> dist_to@[v] < num_marked,
                    forall|v: int|
                        0 <= v < n && #[trigger] marked0[v] ==> marked@[v] && dist_to@[v] == dist0[v],
                    q@ == rest + extra,
                    forall|i: int| 0 <= i < rest.len() ==> (#[trigger] rest[i]) < n && marked0[rest[i] as int],
                    forall|i: int| 0 <= i < extra.len() ==> (#[trigger] extra[i]) < n && marked@[extra[i] as int]
                        && dist_to@[extra[i] as int] == d + 1,
                    forall|v: int| 0 <= v < n && #[trigger] marked@[v] ==> dist_to@[v] <= d + 1,
                    closed_except(adj, marked@, dist_to@, q@, u as int),
                    forall|k: int|
                        0 <= k < j ==> marked@[#[trigger] adj[u as int][k] as int]
                            && dist_to@[adj[u as int][k] as int] <= d + 1,
                    2 * (n - num_marked) + q@.len() < m0,
                decreases list@.len() - j,
            {
                let w = list[j];
                assert(w < n);
                if !marked[w] {
                    proof {
                        lemma_count_true_set(marked@, w as int);
                        lemma_count_true_bound(marked@.update(w as int, true));
                        assert(adj[u as int].contains(w)) by {
                            assert(adj[u as int][j as int] == w);
                        }
                        lemma_mark(adj, sources@, marked@, edge_to@, dist_to@, u, w, d);
                        lemma_closed_after_mark(adj, marked@, dist_to@, q@, u as int, w, d);
                    }
                    mark(&mut marked, &mut edge_to, &mut dist_to, &mut q, u, w, d);
                    proof {
                        num_marked = num_marked + 1;
                        extra = extra.push(w);
                        assert(q@ =~= rest + extra);
                    }
                }
                j += 1;
            }
            proof {
                lemma_closed_after_visit(adj, marked@, dist_to@, q@, u, d);
                lemma_queue_after_visit(rest, extra, marked0, dist0, marked@, dist_to@, n as nat, d);
            }
        }
        BreadthFirstDirectedPaths {
            marked,
            edge_to,
            dist_to,
            adj: Ghost(adj),
            sources: Ghost(sources@),
        }
    }

    /// A marked vertex is reached from a source by a walk as long as its
    /// distance.
    proof fn lemma_sound(&self, v: usize)
        requires
            self.wf(),
            v < self.adj@.len(),
            self.marked@[v as int],
        ensures
            walk_from(self.adj@, self.sources@, v, self.dist_to@[v as int] as nat),
        decreases self.dist_to@[v as int],
    {
        let adj = self.adj@;
        if self.dist_to@[v as int] == 0 {
            let p = seq![v];
            assert(is_walk(adj, p) && self.sources@.contains(p[0]) && p.last() == v && p.len() == 0
                + 1);
        } else {
            let x = self.edge_to@[v as int];
            self.lemma_sound(x);
            let p = choose|p: Seq<usize>|
                is_walk(adj, p) && self.sources@.contains(p[0]) && p.last() == x && p.len()
                    == self.dist_to@[x as int] + 1;
            let longer = p.push(v);
            assert(longer[longer.len() - 2] == x);
            assert(is_walk(adj, longer));
            assert(longer[0] == p[0]);
            assert(is_walk(adj, longer) && self.sources@.contains(longer[0]) && longer.last() == v && longer.len()
                == self.dist_to@[v as int] + 1);
        }
    }

    /// Along a walk from a source, every vertex is marked, at most as far
    /// as its place on the walk.
    proof fn lemma_complete(&self, p: Seq<usize>, i: int)
        requires
            self.wf(),
            is_walk(self.adj@, p),
            self.sources@.contains(p[0]),
            0 <= i < p.len(),
        ensures
            self.marked@[p[i] as int],
            self.dist_to@[p[i] as int] <= i,
        decreases i,
    {
        if i == 0 {
            let k = choose|k: int| 0 <= k < self.sources@.len() && self.sources@[k] == p[0];
            assert(self.marked@[self.sources@[k] as int]);
            assert(self.dist_to@[self.sources@[k] as int] == 0);
        } else {
            self.lemma_complete(p, i - 1);
            let u = p[i - 1] as int;
            assert(p[i - 1] < self.adj@.len());
            assert(self.adj@[u].contains(p[i]));
            let k = choose|k: int| 0 <= k < self.adj@[u].len() && self.adj@[u][k] == p[i];
            assert(self.marked@[self.adj@[u][k] as int]);
        }
    }

    /// Whether some walk leads from a source to `v`.
    pub fn has_path_to(&self, v: usize) -> (r: bool)
        requires
            self.wf(),
            v < self.graph().len(),
        ensures
            r == reachable(self.graph(), self.sources(), v),
    {
        proof {
            self.lemma_reach(v);
        }
        self.marked[v]
    }

    proof fn lemma_reach(&self, v: usize)
        requires
            self.wf(),
            v < self.adj@.len(),
        ensures
            self.marked@[v as int] == reachable(self.adj@, self.sources@, v),
            reachable(self.adj@, self.sources@, v) ==> walk_from(
                self.adj@,
                self.sources@,
                v,
                self.dist_to@[v as int] as nat,
            ) && forall|len: nat| #[trigger]
                walk_from(self.adj@, self.sources@, v, len) ==> self.dist_to@[v as int] <= len,
    {
        if self.marked@[v as int] {
            self.lemma_sound(v);
        }
        assert forall|len: nat| #[trigger] walk_from(self.adj@, self.sources@, v, len) implies self.marked@[v as int] && self.dist_to@[v as int] <= len by {
            let p = choose|p: Seq<usize>|
                is_walk(self.adj@, p) && self.sources@.contains(p[0]) && p.last() == v && p.len()
                    == len + 1;
            self.lemma_complete(p, p.len() - 1);
        }
    }

    /// Number of edges on a shortest walk from a source to `v`;
    /// `usize::MAX` when there is none.
    pub fn distance_to(&self, v: usize) -> (r: usize)
        requires
            self.wf(),
            v < self.graph().len(),
        ensures
            reachable(self.graph(), self.sources(), v) ==> walk_from(
                self.graph(),
                self.sources(),
                v,
                r as nat,
            ) && forall|len: nat| #[trigger]
                walk_from(self.graph(), self.sources(), v, len) ==> r <= len,
            !reachable(self.graph(), self.sources(), v) ==> r == usize::MAX,
            reachable(self.graph(), self.sources(), v) ==> r < self.graph().len(),
            r == self.dist(v),
    {
        proof {
            self.lemma_reach(v);
        }
        self.dist_to[v]
    }

    /// A shortest walk from a source to `v`, listed from `v` back to the
    /// source; `None` when there is none.
    pub fn path_to(&self, v: usize) -> (r: Option<Vec<usize>>)
        requires
            self.wf(),
            v < self.graph().len(),
        ensures
            r is Some <==> reachable(self.graph(), self.sources(), v),
            r matches Some(p) ==> {
                &&& p@.len() == self.dist(v) + 1
                &&& p@[0] == v
                &&& self.sources().contains(p@.last())
                &&& forall|i: int| 0 <= i < p@.len() ==> (#[trigger] p@[i]) < self.graph().len()
                &&& forall|i: int|
                    0 < i < p@.len() ==> self.graph()[p@[i] as int].contains(#[trigger] p@[i - 1])
                &&& forall|i: int| 0 < i < p@.len() ==> p@[i] == self.tree_parent(#[trigger] p@[i - 1])
            },
    {
        proof {
            self.lemma_reach(v);
        }
        if !self.marked[v] {
            return None;
        }
        let mut path: Vec<usize> = Vec::new();
        let mut x = v;
        while self.dist_to[x] != 0
            invariant
                self.wf(),
                x < self.adj@.len(),
                v < self.adj@.len(),
                self.marked@[x as int],
                path@.len() + self.dist_to@[x as int] == self.dist_to@[v as int],
                path@.len() > 0 ==> path@[0] == v && self.adj@[x as int].contains(path@.last()),
                path@.len() == 0 ==> x == v,
                forall|i: int| 0 <= i < path@.len() ==> (#[trigger] path@[i]) < self.adj@.len(),
                forall|i: int|
                    0 < i < path@.len() ==> self.adj@[path@[i] as int].contains(#[trigger] path@[i - 1]),
                forall|i: int| 0 < i < path@.len() ==> path@[i] == self.edge_to@[(#[trigger] path@[i - 1]) as int],
                path@.len() > 0 ==> x == self.edge_to@[path@.last() as int],
            decreases self.dist_to@[x as int],
        {
            path.push(x);
            x = self.edge_to[x];
        }
        path.push(x);
        Some(path)
    }
}

/// Queued vertices are marked, in order of distance, the last at most one
/// further than the first.
pub open spec fn queue_ok(q: Seq<usize>, marked: Seq<bool>, dist_to: Seq<usize>, n: nat) -> bool {
    &&& forall|i: int| 0 <= i < q.len() ==> (#[trigger] q[i]) < n && marked[q[i] as int]
    &&& forall|i: int, j: int|
        0 <= i < j < q.len() ==> dist_to[#[trigger] q[i] as int] <= dist_to[#[trigger] q[j] as int]
}

/// After visiting the neighbors of a vertex at distance `d`, the queue is
/// what was left of it, all at `d` or `d + 1`, then the new vertices at
/// `d + 1`: still in order.
proof fn lemma_queue_after_visit(
    rest: Seq<usize>,
    extra: Seq<usize>,
    marked0: Seq<bool>,
    dist0: Seq<usize>,
    marked: Seq<bool>,
    dist_to: Seq<usize>,
    n: nat,
    d: usize,
)
    requires
        marked.len() == n,
        dist_to.len() == n,
        marked0.len() == n,
        dist0.len() == n,
        forall|i: int, j: int|
            0 <= i < j < rest.len() ==> dist0[#[trigger] rest[i] as int] <= dist0[#[trigger] rest[j] as int],
        forall|i: int| 0 <= i < rest.len() ==> #[trigger] d_bounds(dist0, rest[i], d),
        forall|i: int| 0 <= i < rest.len() ==> (#[trigger] rest[i]) < n && marked0[rest[i] as int],
        forall|v: int| 0 <= v < n && #[trigger] marked0[v] ==> marked[v] && dist_to[v] == dist0[v],
        forall|i: int| 0 <= i < extra.len() ==> (#[trigger] extra[i]) < n && marked[extra[i] as int]
            && dist_to[extra[i] as int] == d + 1,
    ensures
        queue_ok(rest + extra, marked, dist_to, n),
        rest.len() > 0 ==> d <= dist_to[rest[0] as int],
        rest.len() == 0 && extra.len() > 0 ==> dist_to[extra[0] as int] == d + 1,
{
    let q = rest + extra;
    assert forall|i: int| 0 <= i < q.len() implies (#[trigger] q[i]) < n && marked[q[i] as int] by {
        if i >= rest.len() {
            assert(q[i] == extra[i - rest.len()]);
        }
    }
    assert forall|i: int, j: int| 0 <= i < j < q.len() implies dist_to[#[trigger] q[i] as int]
        <= dist_to[#[trigger] q[j] as int] by {
        if j < rest.len() {
            assert(dist0[rest[i] as int] <= dist0[rest[j] as int]);
        } else if i < rest.len() {
            assert(d_bounds(dist0, rest[i], d));
            assert(q[j] == extra[j - rest.len()]);
        } else {
            assert(q[i] == extra[i - rest.len()]);
            assert(q[j] == extra[j - rest.len()]);
        }
    }
    if rest.len() > 0 {
        assert(d_bounds(dist0, rest[0], d));
    }
}

/// Marks `w`, reached from `u` at distance `d`, and queues it.
fn mark(
    marked: &mut Vec<bool>,
    edge_to: &mut Vec<usize>,
    dist_to: &mut Vec<usize>,
    q: &mut VecDeque<usize>,
    u: usize,
    w: usize,
    d: usize,
)
    requires
        w < old(marked)@.len(),
        w < old(edge_to)@.len(),
        w < old(dist_to)@.len(),
        d < usize::MAX,
    ensures
        final(marked)@ == old(marked)@.update(w as int, true),
        final(edge_to)@ == old(edge_to)@.update(w as int, u),
        final(dist_to)@ == old(dist_to)@.update(w as int, (d + 1) as usize),
        final(q)@ == old(q)@.push(w),
{
    edge_to.set(w, u);
    dist_to.set(w, d + 1);
    marked.set(w, true);
    q.push_back(w);
}

/// Marking an unmarked `w` one edge after the marked `u` keeps the walks
/// back to the sources.
/// Every marked vertex, but `except` and those still queued, has all its
/// neighbors marked, each at most one further.
pub open spec fn closed_except(
    adj: Seq<Seq<usize>>,
    marked: Seq<bool>,
    dist_to: Seq<usize>,
    q: Seq<usize>,
    except: int,
) -> bool {
    forall|x: int|
        0 <= x < adj.len() && #[trigger] marked[x] && !q.contains(x as usize) && x != except
            ==> neighbors_within(adj, marked, dist_to, x)
}

/// All neighbors of `x` are marked, each at most one further than `x`.
pub open spec fn neighbors_within(
    adj: Seq<Seq<usize>>,
    marked: Seq<bool>,
    dist_to: Seq<usize>,
    x: int,
) -> bool {
    forall|k: int|
        0 <= k < adj[x].len() ==> marked[#[trigger] adj[x][k] as int] && dist_to[adj[x][k] as int]
            <= dist_to[x] + 1
}

proof fn lemma_closed_after_pop(
    adj: Seq<Seq<usize>>,
    marked: Seq<bool>,
    dist_to: Seq<usize>,
    q0: Seq<usize>,
    u: usize,
)
    requires
        adj.len() <= usize::MAX,
        closed_except(adj, marked, dist_to, q0, -1),
        q0.len() > 0,
        q0[0] == u,
    ensures
        closed_except(adj, marked, dist_to, q0.subrange(1, q0.len() as int), u as int),
{
    let q = q0.subrange(1, q0.len() as int);
    assert forall|x: int|
        0 <= x < adj.len() && #[trigger] marked[x] && !q.contains(x as usize) && x != u implies neighbors_within(adj, marked, dist_to, x) by {
        if q0.contains(x as usize) {
            let j = choose|j: int| 0 <= j < q0.len() && q0[j] == x;
            assert(j != 0);
            assert(q[j - 1] == x);
        }
    }
}

proof fn lemma_closed_after_mark(
    adj: Seq<Seq<usize>>,
    marked: Seq<bool>,
    dist_to: Seq<usize>,
    q: Seq<usize>,
    u: int,
    w: usize,
    d: usize,
)
    requires
        adj.len() <= usize::MAX,
        graph_ok(adj),
        closed_except(adj, marked, dist_to, q, u),
        w < marked.len(),
        marked.len() == adj.len(),
        dist_to.len() == adj.len(),
        !marked[w as int],
    ensures
        closed_except(
            adj,
            marked.update(w as int, true),
            dist_to.update(w as int, (d + 1) as usize),
            q.push(w),
            u,
        ),
{
    let m2 = marked.update(w as int, true);
    let d2 = dist_to.update(w as int, (d + 1) as usize);
    let q2 = q.push(w);
    assert forall|x: int|
        0 <= x < adj.len() && #[trigger] m2[x] && !q2.contains(x as usize) && x != u implies neighbors_within(adj, m2, d2, x) by {
        assert(x != w) by {
            if x == w {
                assert(q2[q2.len() - 1] == w);
            }
        }
        if q.contains(x as usize) {
            let j = choose|j: int| 0 <= j < q.len() && q[j] == x;
            assert(q2[j] == x);
        }
        assert(neighbors_within(adj, marked, dist_to, x));
        assert forall|k: int| 0 <= k < adj[x].len() implies m2[#[trigger] adj[x][k] as int] && d2[adj[x][k] as int]
            <= d2[x] + 1 by {
            assert(marked[adj[x][k] as int]);
        }
    }
}

proof fn lemma_closed_after_visit(
    adj: Seq<Seq<usize>>,
    marked: Seq<bool>,
    dist_to: Seq<usize>,
    q: Seq<usize>,
    u: usize,
    d: usize,
)
    requires
        closed_except(adj, marked, dist_to, q, u as int),
        u < adj.len(),
        marked[u as int],
        dist_to[u as int] == d,
        forall|k: int|
            0 <= k < adj[u as int].len() ==> marked[#[trigger] adj[u as int][k] as int]
                && dist_to[adj[u as int][k] as int] <= d + 1,
    ensures
        closed_except(adj, marked, dist_to, q, -1),
{
    assert(neighbors_within(adj, marked, dist_to, u as int));
}

proof fn lemma_mark(
    adj: Seq<Seq<usize>>,
    sources: Seq<usize>,
    marked: Seq<bool>,
    edge_to: Seq<usize>,
    dist_to: Seq<usize>,
    u: usize,
    w: usize,
    d: usize,
)
    requires
        adj.len() <= usize::MAX,
        forall|i: int| 0 <= i < sources.len() ==> (#[trigger] sources[i]) < adj.len(),
        search_state(adj, sources, marked, edge_to, dist_to),
        marked.len() == adj.len(),
        edge_to.len() == adj.len(),
        dist_to.len() == adj.len(),
        u < adj.len(),
        w < adj.len(),
        marked[u as int],
        !marked[w as int],
        dist_to[u as int] == d,
        d + 1 < usize::MAX,
        adj[u as int].contains(w),
    ensures
        search_state(
            adj,
            sources,
            marked.update(w as int, true),
            edge_to.update(w as int, u),
            dist_to.update(w as int, (d + 1) as usize),
        ),
{
    let n = adj.len();
    let m2 = marked.update(w as int, true);
    let e2 = edge_to.update(w as int, u);
    let d2 = dist_to.update(w as int, (d + 1) as usize);
    assert forall|v: int| 0 <= v < n && #[trigger] m2[v] implies {
        &&& d2[v] < usize::MAX
        &&& d2[v] == 0 ==> sources.contains(v as usize)
        &&& d2[v] > 0 ==> {
            &&& e2[v] < n
            &&& m2[e2[v] as int]
            &&& d2[e2[v] as int] + 1 == d2[v]
            &&& adj[e2[v] as int].contains(v as usize)
        }
    } by {
        if v != w {
            assert(marked[v]);
            if dist_to[v] > 0 {
                assert(edge_to[v] != w);
            }
        } else {
            assert(u != w);
        }
    }
    assert forall|i: int| 0 <= i < sources.len() implies m2[#[trigger] sources[i] as int]
        && d2[sources[i] as int] == 0 by {
        assert(marked[sources[i] as int]);
    }
}

/// The distance of `v` is `d` or `d + 1`.
pub open spec fn d_bounds(dist_to: Seq<usize>, v: usize, d: usize) -> bool {
    d <= dist_to[v as int] <= d + 1
}

proof fn lemma_count_true_positive(s: Seq<bool>, i: int)
    requires
        0 <= i < s.len(),
        s[i],
    ensures
        count_true(s) >= 1,
    decreases s.len(),
{
    if i < s.len() - 1 {
        lemma_count_true_positive(s.drop_last(), i);
    }
}

/// Every adjacency list names vertices of the graph.
pub open spec fn graph_ok(adj: Seq<Seq<usize>>) -> bool {
    forall|v: int, j: int| 0 <= v < adj.len() && 0 <= j < adj[v].len() ==> (#[trigger] adj[v][j]) < adj.len()
}

/// The marked vertices carry their walks back to a source: a source at
/// distance zero, any other vertex one edge after its `edge_to`.
pub open spec fn search_state(
    adj: Seq<Seq<usize>>,
    sources: Seq<usize>,
    marked: Seq<bool>,
    edge_to: Seq<usize>,
    dist_to: Seq<usize>,
) -> bool {
    let n = adj.len();
    &&& forall|i: int|
        0 <= i < sources.len() ==> marked[#[trigger] sources[i] as int] && dist_to[sources[i] as int]
            == 0
    &&& forall|v: int| 0 <= v < n && !(#[trigger] marked[v]) ==> dist_to[v] == usize::MAX
    &&& forall|v: int|
        0 <= v < n && #[trigger] marked[v] ==> {
            &&& dist_to[v] < usize::MAX
            &&& dist_to[v] == 0 ==> sources.contains(v as usize)
            &&& dist_to[v] > 0 ==> {
                &&& edge_to[v] < n
                &&& marked[edge_to[v] as int]
                &&& dist_to[edge_to[v] as int] + 1 == dist_to[v]
                &&& adj[edge_to[v] as int].contains(v as usize)
            }
        }
}

proof fn lemma_count_none(s: Seq<bool>)
    requires
        forall|i: int| 0 <= i < s.len() ==> !s[i],
    ensures
        count_true(s) == 0,
    decreases s.len(),
{
    if s.len() > 0 {
        lemma_count_none(s.drop_last());
    }
}

} // verus!
