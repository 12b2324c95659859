use vstd::prelude::*;

use crate::error::AlgoError;
use crate::random::random_index;
use crate::union_find::UnionFind;

verus! {

/// Identifier of site `(row, col)` of an `n`-wide grid, counted from 1; the
/// virtual top site is 0 and the virtual bottom site `n * n + 1`.
pub open spec fn site_id(n: int, row: int, col: int) -> int {
    (row - 1) * n + col
}

/// The sites still blocked, as a list to draw from and as a flag per id.
pub struct BlockedSites {
    vec: Vec<usize>,
    blocked: Vec<bool>,
}

impl BlockedSites {
    /// Whether site `id` is blocked.
    pub closed spec fn is_blocked(&self, id: int) -> bool {
        self.blocked@[id]
    }

    pub closed spec fn count(&self) -> nat {
        self.vec@.len()
    }

    /// The list holds each blocked site of `1..=n*n` once, and the flags
    /// mark exactly those.
    pub closed spec fn wf(&self, n: nat) -> bool {
        &&& n * n + 2 <= usize::MAX
        &&& self.blocked@.len() == n * n + 2
        &&& self.vec@.len() <= n * n
        &&& forall|i: int| 0 <= i < self.vec@.len() ==> 1 <= #[trigger] self.vec@[i] <= n * n
        &&& forall|i: int, j: int|
            0 <= i < j < self.vec@.len() ==> #[trigger] self.vec@[i] != #[trigger] self.vec@[j]
        &&& forall|id: int|
            0 <= id < n * n + 2 ==> (#[trigger] self.blocked@[id] <==> self.vec@.contains(
                id as usize,
            ))
    }

    /// All sites of an `n`-wide grid, blocked.
    pub fn new(n: usize) -> (b: BlockedSites)
        requires
            n * n + 2 <= usize::MAX,
        ensures
            b.wf(n as nat),
            b.count() == n * n,
            forall|id: int| 1 <= id <= n * n ==> #[trigger] b.is_blocked(id),
    {
        let size = n * n;
        let mut vec: Vec<usize> = Vec::new();
        let mut blocked: Vec<bool> = Vec::new();
        blocked.push(false);
        let mut i: usize = 1;
        while i <= size
            invariant
                size == n * n,
                size + 2 <= usize::MAX,
                1 <= i <= size + 1,
                vec@.len() == i - 1,
                blocked@.len() == i,
                !blocked@[0],
                forall|k: int| 0 <= k < vec@.len() ==> #[trigger] vec@[k] == k + 1,
                forall|id: int| 1 <= id < i ==> #[trigger] blocked@[id],
            decreases size + 1 - i,
        {
            vec.push(i);
            blocked.push(true);
            i += 1;
        }
        blocked.push(false);
        let b = BlockedSites { vec, blocked };
        proof {
            assert forall|id: int| 0 <= id < size + 2 implies (#[trigger] b.blocked@[id]
                <==> b.vec@.contains(id as usize)) by {
                if 1 <= id <= size {
                    assert(b.vec@[id - 1] == id);
                }
                if b.vec@.contains(id as usize) {
                    let k = choose|k: int| 0 <= k < b.vec@.len() && b.vec@[k] == id as usize;
                    assert(b.vec@[k] == k + 1);
                }
            }
        }
        b
    }

    /// Unblocks and returns a blocked site drawn at random.
    pub fn remove_random(&mut self, Ghost(n): Ghost<nat>) -> (x: usize)
        requires
            old(self).wf(n),
            old(self).count() > 0,
        ensures
            final(self).wf(n),
            1 <= x <= n * n,
            old(self).is_blocked(x as int),
            !final(self).is_blocked(x as int),
            final(self).count() == old(self).count() - 1,
            forall|id: int|
                0 <= id < n * n + 2 && id != x ==> #[trigger] final(self).is_blocked(id) == old(
                    self,
                ).is_blocked(id),
    {
        let ghost v0 = self.vec@;
        let index = random_index(self.vec.len());
        let elem = self.vec.swap_remove(index);
        proof {
            assert(v0.contains(elem));
        }
        self.blocked.set(elem, false);
        proof {
            let v = self.vec@;
            assert(v == v0.update(index as int, v0.last()).drop_last());
            assert forall|i: int| 0 <= i < v.len() implies v[i] != elem && (v[i] == v0[i] || (i
                == index && v[i] == v0[v0.len() - 1])) by {}
            assert forall|i: int, j: int| 0 <= i < j < v.len() implies #[trigger] v[i]
                != #[trigger] v[j] by {
                if i == index {
                    assert(v0[v0.len() - 1] != v0[j]);
                } else if j == index {
                    assert(v0[i] != v0[v0.len() - 1]);
                }
            }
            assert forall|id: int| 0 <= id < n * n + 2 implies (#[trigger] self.blocked@[id]
                <==> v.contains(id as usize)) by {
                if id != elem {
                    if v0.contains(id as usize) {
                        let k = choose|k: int| 0 <= k < v0.len() && v0[k] == id as usize;
                        assert(v0[index as int] == elem);
                        assert(k != index);
                        if k == v0.len() - 1 {
                            assert(v[index as int] == id);
                        } else {
                            assert(v[k] == id);
                        }
                    }
                    if v.contains(id as usize) {
                        let k = choose|k: int| 0 <= k < v.len() && v[k] == id as usize;
                        if k == index {
                            assert(v0[v0.len() - 1] == id);
                        } else {
                            assert(v0[k] == id);
                        }
                    }
                } else {
                    if v.contains(id as usize) {
                        let k = choose|k: int| 0 <= k < v.len() && v[k] == id as usize;
                    }
                }
            }
        }
        elem
    }
}

/// An `n`-by-`n` grid of sites, each blocked or open, with a virtual top
/// site joined to the first row and a virtual bottom site joined to the
/// last; it percolates when top and bottom are connected.
pub struct Percolation {
    dimension: usize,
    uf: UnionFind,
    top: usize,
    bottom: usize,
    blocked_sites: BlockedSites,
}

impl Percolation {
    pub closed spec fn n(&self) -> nat {
        self.dimension as nat
    }

    /// Sites `a` and `b` are connected.
    pub closed spec fn linked(&self, a: int, b: int) -> bool {
        self.uf.same_set(a, b)
    }

    /// Site `id` is open.
    pub closed spec fn open_site(&self, id: int) -> bool {
        !self.blocked_sites.is_blocked(id)
    }

    pub closed spec fn blocked_count(&self) -> nat {
        self.blocked_sites.count()
    }

    pub closed spec fn wf(&self) -> bool {
        let n = self.dimension as nat;
        &&& n >= 1
        &&& 2 * (n * n) + 2 <= usize::MAX
        &&& self.uf.wf()
        &&& self.uf.len() == n * n + 2
        &&& self.top == 0
        &&& self.bottom == n * n + 1
        &&& self.blocked_sites.wf(n)
    }

    /// An `n`-by-`n` grid with every site blocked; fails with
    /// `IllegalArgument` when `n` is zero.
    pub fn new(n: usize) -> (r: Result<Percolation, AlgoError>)
        requires
            2 * (n * n) + 2 <= usize::MAX,
        ensures
            r is Err <==> n == 0,
            r matches Err(e) ==> e == AlgoError::IllegalArgument,
            r matches Ok(p) ==> {
                &&& p.wf()
                &&& p.n() == n
                &&& p.blocked_count() == n * n
                &&& forall|id: int| 1 <= id <= n * n ==> !#[trigger] p.open_site(id)
                &&& forall|col: int| 1 <= col <= n ==> #[trigger] p.linked(0, col)
                &&& forall|col: int| 1 <= col <= n ==> #[trigger] p.linked(n * n + 1, n * (n - 1) + col)
            },
    {
        if n == 0 {
            return Err(AlgoError::IllegalArgument);
        }
        assert(n * (n - 1) + n == n * n) by (nonlinear_arith);
        let size = n * n;
        let mut p = Percolation {
            dimension: n,
            uf: UnionFind::new(2 + size),
            top: 0,
            bottom: 1 + size,
            blocked_sites: BlockedSites::new(n),
        };
        let base = n * (n - 1);
        let mut i: usize = 1;
        while i <= n
            invariant
                1 <= i <= n + 1,
                size == n * n,
                base + n == size,
                2 * size + 2 <= usize::MAX,
                p.wf(),
                p.dimension == n,
                p.blocked_sites.count() == size,
                forall|id: int| 1 <= id <= size ==> #[trigger] p.blocked_sites.is_blocked(id),
                forall|col: int| 1 <= col < i ==> #[trigger] p.uf.same_set(0, col),
                forall|col: int| 1 <= col < i ==> #[trigger] p.uf.same_set(size + 1, base + col),
            decreases n + 1 - i,
        {
            assert(i <= size) by (nonlinear_arith)
                requires
                    1 <= i <= n,
                    size == n * n,
            ;
            let ghost uf0 = p.uf;
            proof {
                p.uf.lemma_same_set_equivalence();
            }
            p.uf.union(p.top, i);
            let ghost uf1 = p.uf;
            proof {
                p.uf.lemma_same_set_equivalence();
            }
            p.uf.union(p.bottom, base + i);
            proof {
                assert(uf1.same_set(0, i as int));
                assert forall|col: int| 1 <= col < i + 1 implies #[trigger] p.uf.same_set(0, col) by {
                    if col < i {
                        assert(uf0.same_set(0, col));
                        assert(uf1.same_set(0, col));
                    }
                }
                assert forall|col: int| 1 <= col < i + 1 implies #[trigger] p.uf.same_set(
                    size + 1,
                    base + col,
                ) by {
                    if col < i {
                        assert(uf0.same_set(size + 1, base + col));
                        assert(uf1.same_set(size + 1, base + col));
                    }
                }
            }
            i += 1;
        }
        Ok(p)
    }

    /// The id of site `(row, col)`; `IllegalArgument` when it lies past
    /// the virtual bottom site.
    pub fn to_id(&self, row: usize, col: usize) -> (r: Result<usize, AlgoError>)
        requires
            self.wf(),
            row >= 1,
            site_id(self.n() as int, row as int, col as int) <= usize::MAX,
        ensures
            site_id(self.n() as int, row as int, col as int) > self.n() * self.n() + 1 ==> r
                == Err::<usize, AlgoError>(AlgoError::IllegalArgument),
            site_id(self.n() as int, row as int, col as int) <= self.n() * self.n() + 1 ==> r
                == Ok::<usize, AlgoError>(site_id(self.n() as int, row as int, col as int) as usize),
    {
        let n = self.dimension;
        assert((row - 1) * n <= (row - 1) * n + col);
        let id = (row - 1) * n + col;
        if id > 1 + n * n {
            Err(AlgoError::IllegalArgument)
        } else {
            Ok(id)
        }
    }

    /// Whether the site `(row, col)` of the grid is open.
    pub fn is_open(&self, row: usize, col: usize) -> (r: Result<bool, AlgoError>)
        requires
            self.wf(),
            1 <= row <= self.n(),
            1 <= col <= self.n(),
        ensures
            r == Ok::<bool, AlgoError>(self.open_site(site_id(self.n() as int, row as int, col as int))),
    {
        proof {
            self.lemma_site(row as int, col as int);
        }
        let id = self.to_id(row, col)?;
        Ok(!self.blocked_sites.blocked[id])
    }

    /// A site of the grid has an id in `1..=n*n`.
    proof fn lemma_site(&self, row: int, col: int)
        requires
            self.wf(),
            1 <= row <= self.n(),
            1 <= col <= self.n(),
        ensures
            1 <= site_id(self.n() as int, row, col) <= self.n() * self.n(),
    {
        let n = self.n() as int;
        assert(1 <= (row - 1) * n + col <= n * n) by (nonlinear_arith)
            requires
                1 <= row <= n,
                1 <= col <= n,
        ;
    }

    /// Joins the site `(row, col)` to each open neighbor. Whether the site
    /// itself counts as open is left as it is: `open_random` unblocks a
    /// site and then joins it.
    #[verifier::rlimit(80)]
    pub fn open(&mut self, row: usize, col: usize) -> (r: Result<(), AlgoError>)
        requires
            old(self).wf(),
            1 <= row <= old(self).n(),
            1 <= col <= old(self).n(),
        ensures
            r is Ok,
            final(self).wf(),
            final(self).n() == old(self).n(),
            final(self).blocked_count() == old(self).blocked_count(),
            forall|id: int| #[trigger] final(self).open_site(id) == old(self).open_site(id),
            forall|a: int, b: int|
                0 <= a < old(self).n() * old(self).n() + 2 && 0 <= b < old(self).n() * old(self).n()
                    + 2 && old(self).linked(a, b) ==> #[trigger] final(self).linked(a, b),
            ({
                let n = old(self).n() as int;
                let id = site_id(n, row as int, col as int);
                &&& row > 1 && old(self).open_site(id - n) ==> final(self).linked(id, id - n)
                &&& row < n && old(self).open_site(id + n) ==> final(self).linked(id, id + n)
                &&& col > 1 && old(self).open_site(id - 1) ==> final(self).linked(id, id - 1)
                &&& col < n && old(self).open_site(id + 1) ==> final(self).linked(id, id + 1)
            }),
    {
        let ghost n = self.n() as int;
        proof {
            self.lemma_site(row as int, col as int);
        }
        let id = self.to_id(row, col)?;
        let ghost i = id as int;
        let ghost up = row > 1 && self.open_site(i - n);
        let ghost down = row < n && self.open_site(i + n);
        let ghost left = col > 1 && self.open_site(i - 1);
        let ghost right = col < n && self.open_site(i + 1);
        proof {
            if row > 1 {
                self.lemma_site(row - 1, col as int);
                assert(site_id(n, row - 1, col as int) == i - n) by (nonlinear_arith)
                    requires
                        i == site_id(n, row as int, col as int),
                ;
            }
            if row < n {
                self.lemma_site(row + 1, col as int);
                assert(site_id(n, row + 1, col as int) == i + n) by (nonlinear_arith)
                    requires
                        i == site_id(n, row as int, col as int),
                ;
            }
            if col > 1 {
                self.lemma_site(row as int, col - 1);
            }
            if col < n {
                self.lemma_site(row as int, col + 1);
            }
        }
        if row > 1 && self.is_open(row - 1, col)? {
            let other = self.to_id(row - 1, col)?;
            proof {
                self.uf.lemma_same_set_equivalence();
            }
            self.uf.union(id, other);
            assert(self.uf.same_set(i, i - n));
        }
        assert(up ==> self.uf.same_set(i, i - n));
        let ghost uf1 = self.uf;
        if row < self.dimension && self.is_open(row + 1, col)? {
            let other = self.to_id(row + 1, col)?;
            proof {
                self.uf.lemma_same_set_equivalence();
            }
            self.uf.union(id, other);
            assert(self.uf.same_set(i, i + n));
            assert(up ==> uf1.same_set(i, i - n) && self.uf.same_set(i, i - n));
        }
        assert(up ==> self.uf.same_set(i, i - n));
        assert(down ==> self.uf.same_set(i, i + n));
        let ghost uf2 = self.uf;
        if col > 1 && self.is_open(row, col - 1)? {
            let other = self.to_id(row, col - 1)?;
            proof {
                self.uf.lemma_same_set_equivalence();
            }
            self.uf.union(id, other);
            assert(self.uf.same_set(i, i - 1));
            assert(up ==> uf2.same_set(i, i - n) && self.uf.same_set(i, i - n));
            assert(down ==> uf2.same_set(i, i + n) && self.uf.same_set(i, i + n));
        }
        assert(up ==> self.uf.same_set(i, i - n));
        assert(down ==> self.uf.same_set(i, i + n));
        assert(left ==> self.uf.same_set(i, i - 1));
        let ghost uf3 = self.uf;
        if col < self.dimension && self.is_open(row, col + 1)? {
            let other = self.to_id(row, col + 1)?;
            proof {
                self.uf.lemma_same_set_equivalence();
            }
            self.uf.union(id, other);
            assert(self.uf.same_set(i, i + 1));
            assert(up ==> uf3.same_set(i, i - n) && self.uf.same_set(i, i - n));
            assert(down ==> uf3.same_set(i, i + n) && self.uf.same_set(i, i + n));
            assert(left ==> uf3.same_set(i, i - 1) && self.uf.same_set(i, i - 1));
        }
        Ok(())
    }

    /// Whether the site `(row, col)` is open and connected to the top.
    pub fn is_full(&mut self, row: usize, col: usize) -> (r: Result<bool, AlgoError>)
        requires
            old(self).wf(),
            1 <= row <= old(self).n(),
            1 <= col <= old(self).n(),
        ensures
            final(self).wf(),
            final(self).n() == old(self).n(),
            final(self).blocked_count() == old(self).blocked_count(),
            forall|id: int| #[trigger] final(self).open_site(id) == old(self).open_site(id),
            forall|a: int, b: int| #[trigger] final(self).linked(a, b) == old(self).linked(a, b),
            ({
                let id = site_id(old(self).n() as int, row as int, col as int);
                r == Ok::<bool, AlgoError>(old(self).open_site(id) && old(self).linked(0, id))
            }),
    {
        proof {
            self.lemma_site(row as int, col as int);
        }
        if !self.is_open(row, col)? {
            Ok(false)
        } else {
            let id = self.to_id(row, col)?;
            Ok(self.uf.connected(self.top, id))
        }
    }

    /// Number of open sites of the grid.
    pub fn number_of_open_sites(&self) -> (r: usize)
        requires
            self.wf(),
        ensures
            r == self.n() * self.n() - self.blocked_count(),
    {
        self.dimension * self.dimension - self.blocked_sites.vec.len()
    }

    /// Whether the virtual top and bottom sites are connected.
    pub fn percolates(&mut self) -> (r: bool)
        requires
            old(self).wf(),
        ensures
            final(self).wf(),
            final(self).n() == old(self).n(),
            final(self).blocked_count() == old(self).blocked_count(),
            forall|id: int| #[trigger] final(self).open_site(id) == old(self).open_site(id),
            forall|a: int, b: int| #[trigger] final(self).linked(a, b) == old(self).linked(a, b),
            r == old(self).linked(0, (old(self).n() * old(self).n() + 1) as int),
    {
        self.uf.connected(self.top, self.bottom)
    }

    /// Unblocks a blocked site drawn at random and joins it to its open
    /// neighbors; `NoBlockedSites` when every site is open.
    pub fn open_random(&mut self) -> (r: Result<(), AlgoError>)
        requires
            old(self).wf(),
        ensures
            final(self).wf(),
            final(self).n() == old(self).n(),
            old(self).blocked_count() == 0 ==> r == Err::<(), AlgoError>(AlgoError::NoBlockedSites)
                && final(self).blocked_count() == 0,
            old(self).blocked_count() > 0 ==> r is Ok && final(self).blocked_count()
                == old(self).blocked_count() - 1 && exists|x: int|
                1 <= x <= old(self).n() * old(self).n() && !old(self).open_site(x)
                    && final(self).open_site(x),
    {
        if self.blocked_sites.vec.len() > 0 {
            let n = self.dimension;
            let x = self.blocked_sites.remove_random(Ghost(n as nat));
            let q = (x - 1) / n;
            let row = q + 1;
            proof {
                let xm = (x - 1) as int;
                let ni = n as int;
                vstd::arithmetic::div_mod::lemma_fundamental_div_mod(xm, ni);
                assert(0 <= q < n) by (nonlinear_arith)
                    requires
                        xm == ni * (q as int) + xm % ni,
                        0 <= xm % ni < ni,
                        0 <= xm < ni * ni,
                        ni == n,
                ;
                assert(q * n == n * q) by (nonlinear_arith);
                assert(q * n <= x - 1);
            }
            let col = x - q * n;
            proof {
                assert(site_id(n as int, row as int, col as int) == x) by (nonlinear_arith)
                    requires
                        row == q + 1,
                        col == x - q * n,
                ;
                assert(1 <= col <= n);
            }
            let r = self.open(row, col);
            proof {
                assert(!old(self).open_site(x as int) && self.open_site(x as int));
            }
            r
        } else {
            Err(AlgoError::NoBlockedSites)
        }
    }
}

} // verus!
