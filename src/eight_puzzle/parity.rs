use vstd::prelude::*;

use super::board::{
    blank_of, in_grid, is_goal_grid, is_square, lemma_blank, lemma_swap_valid, neighbors_of,
    swap_cells, twin_cells, twin_of, valid_grid, goal_label, next_cell, lemma_first_cells,
};

verus! {

/// The labels of the first `k` rows, row after row.
pub open spec fn flat_upto(g: Seq<Seq<usize>>, k: int) -> Seq<usize>
    decreases k,
{
    if k <= 0 {
        Seq::empty()
    } else {
        flat_upto(g, k - 1) + g[k - 1]
    }
}

/// The labels of a grid in row-major order.
pub open spec fn flat(g: Seq<Seq<usize>>) -> Seq<usize> {
    flat_upto(g, g.len() as int)
}

/// `s` without its blanks.
pub open spec fn nonblank(s: Seq<usize>) -> Seq<usize>
    decreases s.len(),
{
    if s.len() == 0 {
        s
    } else if s.last() == 0 {
        nonblank(s.drop_last())
    } else {
        nonblank(s.drop_last()).push(s.last())
    }
}

/// The tiles of a grid in row-major order, the blank left out.
pub open spec fn tiles_of(g: Seq<Seq<usize>>) -> Seq<usize> {
    nonblank(flat(g))
}

/// Number of entries of `s` below `x`.
pub open spec fn count_less(x: usize, s: Seq<usize>) -> nat
    decreases s.len(),
{
    if s.len() == 0 {
        0
    } else {
        (if s[0] < x {
            1nat
        } else {
            0nat
        }) + count_less(x, s.drop_first())
    }
}

/// Number of pairs of entries of `s` that stand in decreasing order.
pub open spec fn inversions(s: Seq<usize>) -> nat
    decreases s.len(),
{
    if s.len() == 0 {
        0
    } else {
        count_less(s[0], s.drop_first()) + inversions(s.drop_first())
    }
}

/// The class of a grid that no move changes: the parity of the tiles'
/// inversions, plus, on a grid of even width, the row of the blank.
pub open spec fn parity_class(g: Seq<Seq<usize>>) -> int {
    (inversions(tiles_of(g)) + if g.len() % 2 == 0 {
        blank_of(g).0
    } else {
        0
    }) % 2
}

/// The class of the goal board of width `n`.
pub open spec fn goal_class(n: int) -> int {
    if n % 2 == 0 {
        (n - 1) % 2
    } else {
        0
    }
}

proof fn lemma_count_less_concat(x: usize, a: Seq<usize>, b: Seq<usize>)
    ensures
        count_less(x, a + b) == count_less(x, a) + count_less(x, b),
    decreases a.len(),
{
    if a.len() > 0 {
        assert((a + b).drop_first() =~= a.drop_first() + b);
        lemma_count_less_concat(x, a.drop_first(), b);
    } else {
        assert(a + b =~= b);
    }
}

/// Exchanging two neighbouring distinct entries changes the inversions by one.
proof fn lemma_swap_adjacent(p: Seq<usize>, x: usize, y: usize, s: Seq<usize>)
    requires
        x != y,
    ensures
        inversions(p + seq![x, y] + s) + 1 == inversions(p + seq![y, x] + s) || inversions(
            p + seq![y, x] + s,
        ) + 1 == inversions(p + seq![x, y] + s),
    decreases p.len(),
{
    let a = p + seq![x, y] + s;
    let b = p + seq![y, x] + s;
    if p.len() == 0 {
        assert(a =~= seq![x] + (seq![y] + s));
        assert(b =~= seq![y] + (seq![x] + s));
        let ty = seq![y] + s;
        let tx = seq![x] + s;
        assert(a[0] == x && a.drop_first() =~= ty);
        assert(b[0] == y && b.drop_first() =~= tx);
        assert(ty[0] == y && ty.drop_first() =~= s);
        assert(tx[0] == x && tx.drop_first() =~= s);
        assert(count_less(x, ty) == (if y < x {
            1nat
        } else {
            0nat
        }) + count_less(x, s));
        assert(count_less(y, tx) == (if x < y {
            1nat
        } else {
            0nat
        }) + count_less(y, s));
        assert(inversions(ty) == count_less(y, s) + inversions(s));
        assert(inversions(tx) == count_less(x, s) + inversions(s));
        assert(inversions(a) == count_less(x, ty) + inversions(ty));
        assert(inversions(b) == count_less(y, tx) + inversions(tx));
    } else {
        let tail_p = p.drop_first();
        let h = p[0];
        assert(a[0] == h && a.drop_first() =~= tail_p + seq![x, y] + s);
        assert(b[0] == h && b.drop_first() =~= tail_p + seq![y, x] + s);
        lemma_swap_adjacent(tail_p, x, y, s);
        lemma_count_less_concat(h, tail_p + seq![x, y], s);
        lemma_count_less_concat(h, tail_p + seq![y, x], s);
        lemma_count_less_concat(h, tail_p, seq![x, y]);
        lemma_count_less_concat(h, tail_p, seq![y, x]);
        lemma_count_less_concat(h, seq![x], seq![y]);
        lemma_count_less_concat(h, seq![y], seq![x]);
        assert(seq![x] + seq![y] =~= seq![x, y]);
        assert(seq![y] + seq![x] =~= seq![y, x]);
        assert(inversions(a) == count_less(h, a.drop_first()) + inversions(a.drop_first()));
        assert(inversions(b) == count_less(h, b.drop_first()) + inversions(b.drop_first()));
    }
}

/// Moving an entry past `m` entries that differ from it changes the parity of
/// the inversions as often as `m` is long.
proof fn lemma_move_across(p: Seq<usize>, x: usize, m: Seq<usize>, s: Seq<usize>)
    requires
        !m.contains(x),
    ensures
        (inversions(p + seq![x] + m + s) + m.len()) % 2 == inversions(p + m + seq![x] + s) % 2,
    decreases m.len(),
{
    if m.len() == 0 {
        assert(p + seq![x] + m + s =~= p + m + seq![x] + s);
    } else {
        let y = m[0];
        let m1 = m.drop_first();
        assert(!m1.contains(x)) by {
            if m1.contains(x) {
                let k = choose|k: int| 0 <= k < m1.len() && m1[k] == x;
                assert(m[k + 1] == x);
            }
        }
        assert(y != x);
        assert(p + seq![x] + m + s =~= p + seq![x, y] + (m1 + s));
        lemma_swap_adjacent(p, x, y, m1 + s);
        assert(p + seq![y, x] + (m1 + s) =~= (p + seq![y]) + seq![x] + m1 + s);
        lemma_move_across(p + seq![y], x, m1, s);
        assert((p + seq![y]) + m1 + seq![x] + s =~= p + m + seq![x] + s);
    }
}

proof fn lemma_nonblank_concat(a: Seq<usize>, b: Seq<usize>)
    ensures
        nonblank(a + b) == nonblank(a) + nonblank(b),
    decreases b.len(),
{
    if b.len() == 0 {
        assert(a + b =~= a);
        assert(nonblank(a) + nonblank(b) =~= nonblank(a));
    } else {
        assert((a + b).drop_last() =~= a + b.drop_last());
        lemma_nonblank_concat(a, b.drop_last());
        if b.last() != 0 {
            assert(nonblank(a) + nonblank(b.drop_last()).push(b.last()) =~= (nonblank(a)
                + nonblank(b.drop_last())).push(b.last()));
        }
    }
}

proof fn lemma_nonblank_keeps(s: Seq<usize>)
    requires
        !s.contains(0),
    ensures
        nonblank(s) == s,
    decreases s.len(),
{
    if s.len() > 0 {
        assert(!s.drop_last().contains(0)) by {
            if s.drop_last().contains(0) {
                let k = choose|k: int| 0 <= k < s.drop_last().len() && s.drop_last()[k] == 0;
                assert(s[k] == 0);
            }
        }
        assert(s.last() != 0) by {
            assert(s[s.len() - 1] == s.last());
        }
        lemma_nonblank_keeps(s.drop_last());
        assert(s.drop_last().push(s.last()) =~= s);
    }
}

proof fn lemma_nonblank_single(x: usize)
    ensures
        nonblank(seq![x]) == if x == 0 {
            Seq::<usize>::empty()
        } else {
            seq![x]
        },
{
    let one = seq![x];
    assert(one.drop_last() =~= Seq::<usize>::empty());
    assert(one.last() == x);
    assert(nonblank(Seq::<usize>::empty()) == Seq::<usize>::empty());
    assert(Seq::<usize>::empty().push(x) =~= seq![x]);
}

/// Row `r` of a square grid of width `n` starts at `r * n` of its labels in
/// row-major order.
proof fn lemma_flat_upto(g: Seq<Seq<usize>>, k: int)
    requires
        is_square(g),
        0 <= k <= g.len(),
    ensures
        flat_upto(g, k).len() == k * g.len(),
        forall|r: int, c: int|
            0 <= r < k && 0 <= c < g.len() ==> #[trigger] flat_upto(g, k)[r * g.len() + c]
                == g[r][c],
    decreases k,
{
    let n = g.len() as int;
    if k > 0 {
        lemma_flat_upto(g, k - 1);
        assert(g[k - 1].len() == n);
        assert((k - 1) * n + n == k * n) by (nonlinear_arith);
        assert(flat_upto(g, k).len() == flat_upto(g, k - 1).len() + g[k - 1].len());
        assert(flat_upto(g, k).len() == k * n);
        assert forall|r: int, c: int| 0 <= r < k && 0 <= c < n implies #[trigger] flat_upto(g, k)[r
            * n + c] == g[r][c] by {
            if r < k - 1 {
                assert(r * n + c < (k - 1) * n) by (nonlinear_arith)
                    requires
                        0 <= r < k - 1,
                        0 <= c < n,
                ;
                assert(flat_upto(g, k)[r * n + c] == flat_upto(g, k - 1)[r * n + c]);
            } else {
                assert(r * n == (k - 1) * n);
            }
        }
    } else {
        assert(k * n == 0) by (nonlinear_arith)
            requires
                k == 0,
        ;
    }
}

/// Changing one cell of a grid changes the one label at its row-major
/// position.
proof fn lemma_flat_update(g: Seq<Seq<usize>>, r: int, c: int, v: usize, k: int)
    requires
        is_square(g),
        in_grid(g.len() as int, r, c),
        0 <= k <= g.len(),
    ensures
        flat_upto(g.update(r, g[r].update(c, v)), k) == if r < k {
            flat_upto(g, k).update(r * g.len() + c, v)
        } else {
            flat_upto(g, k)
        },
    decreases k,
{
    let n = g.len() as int;
    let h = g.update(r, g[r].update(c, v));
    if k > 0 {
        lemma_flat_update(g, r, c, v, k - 1);
        lemma_flat_upto(g, k - 1);
        if r == k - 1 {
            assert(flat_upto(h, k) =~= flat_upto(g, k).update(r * n + c, v));
        } else if r < k - 1 {
            assert(r * n + c < (k - 1) * n) by (nonlinear_arith)
                requires
                    0 <= r < k - 1,
                    0 <= c < n,
            ;
            assert(flat_upto(h, k) =~= flat_upto(g, k).update(r * n + c, v));
        } else {
            assert(flat_upto(h, k) =~= flat_upto(g, k));
        }
    }
}

/// The row-major labels of a valid grid hold the blank once, at the blank's
/// position.
proof fn lemma_flat_valid(g: Seq<Seq<usize>>)
    requires
        valid_grid(g),
    ensures
        flat(g).len() == g.len() * g.len(),
        forall|r: int, c: int| in_grid(g.len() as int, r, c) ==> #[trigger] flat(g)[r * g.len() + c] == g[r][c],
        forall|i: int| 0 <= i < flat(g).len() && #[trigger] flat(g)[i] == 0 ==> i == blank_of(g).0 * g.len() + blank_of(g).1,
        forall|i: int, j: int|
            0 <= i < flat(g).len() && 0 <= j < flat(g).len() && #[trigger] flat(g)[i] == #[trigger] flat(g)[j] ==> i == j,
{
    let n = g.len() as int;
    lemma_flat_upto(g, n);
    lemma_blank(g);
    assert forall|i: int| 0 <= i < n * n implies #[trigger] flat(g)[i] == g[i / n][i % n] && in_grid(n, i / n, i % n) && i == (i / n) * n + i % n by {
        vstd::arithmetic::div_mod::lemma_fundamental_div_mod(i, n);
        assert(0 <= i / n < n) by (nonlinear_arith)
            requires
                i == n * (i / n) + i % n,
                0 <= i % n < n,
                0 <= i < n * n,
        ;
        assert(n * (i / n) == (i / n) * n) by (nonlinear_arith);
    }
    assert forall|i: int, j: int|
        0 <= i < flat(g).len() && 0 <= j < flat(g).len() && #[trigger] flat(g)[i] == #[trigger] flat(g)[j] implies i == j by {
        assert(g[i / n][i % n] == g[j / n][j % n]);
    }
}

/// The blank's row-major position, `p` and `q` positions with `p < q`, and
/// the labels of a grid with the cells at `p` and `q` exchanged.
proof fn lemma_swap_flat(g: Seq<Seq<usize>>, r1: int, c1: int, r2: int, c2: int)
    requires
        valid_grid(g),
        in_grid(g.len() as int, r1, c1),
        in_grid(g.len() as int, r2, c2),
    ensures
        flat(swap_cells(g, r1, c1, r2, c2)) == flat(g).update(r1 * g.len() + c1, g[r2][c2]).update(
            r2 * g.len() + c2,
            g[r1][c1],
        ),
{
    let n = g.len() as int;
    let g1 = g.update(r1, g[r1].update(c1, g[r2][c2]));
    lemma_flat_update(g, r1, c1, g[r2][c2], n);
    assert(is_square(g1));
    lemma_flat_update(g1, r2, c2, g[r1][c1], n);
}

/// Exchanging the entries at `p < q` of `s`, one of them the only blank, and
/// the rest of `p..q` free of blanks: the tiles change in inversion parity
/// as often as `q - p - 1`.
proof fn lemma_slide_parity(s: Seq<usize>, p: int, q: int)
    requires
        0 <= p < q < s.len(),
        s[p] == 0 || s[q] == 0,
        forall|i: int, j: int| 0 <= i < s.len() && 0 <= j < s.len() && #[trigger] s[i] == #[trigger] s[j] ==> i == j,
    ensures
        (inversions(nonblank(s)) + (q - p - 1)) % 2 == inversions(
            nonblank(s.update(p, s[q]).update(q, s[p])),
        ) % 2,
{
    let a = s[p];
    let b = s[q];
    let pre = s.take(p);
    let mid = s.subrange(p + 1, q);
    let post = s.skip(q + 1);
    let t = s.update(p, b).update(q, a);
    assert(s =~= pre + seq![a] + mid + seq![b] + post);
    assert(t =~= pre + seq![b] + mid + seq![a] + post);
    assert(!mid.contains(0)) by {
        if mid.contains(0) {
            let k = choose|k: int| 0 <= k < mid.len() && mid[k] == 0;
            assert(s[p + 1 + k] == 0);
        }
    }
    lemma_nonblank_keeps(mid);
    lemma_nonblank_concat(pre + seq![a] + mid + seq![b], post);
    lemma_nonblank_concat(pre + seq![a] + mid, seq![b]);
    lemma_nonblank_concat(pre + seq![a], mid);
    lemma_nonblank_concat(pre, seq![a]);
    lemma_nonblank_concat(pre + seq![b] + mid + seq![a], post);
    lemma_nonblank_concat(pre + seq![b] + mid, seq![a]);
    lemma_nonblank_concat(pre + seq![b], mid);
    lemma_nonblank_concat(pre, seq![b]);
    lemma_nonblank_single(a);
    lemma_nonblank_single(b);
    let fp = nonblank(pre);
    let fs = nonblank(post);
    if a == 0 {
        assert(b != 0);
        assert(!mid.contains(b)) by {
            if mid.contains(b) {
                let k = choose|k: int| 0 <= k < mid.len() && mid[k] == b;
                assert(s[p + 1 + k] == s[q]);
            }
        }
        assert(nonblank(s) =~= fp + mid + seq![b] + fs);
        assert(nonblank(t) =~= fp + seq![b] + mid + fs);
        lemma_move_across(fp, b, mid, fs);
    } else {
        assert(!mid.contains(a)) by {
            if mid.contains(a) {
                let k = choose|k: int| 0 <= k < mid.len() && mid[k] == a;
                assert(s[p + 1 + k] == s[p]);
            }
        }
        assert(nonblank(s) =~= fp + seq![a] + mid + fs);
        assert(nonblank(t) =~= fp + mid + seq![a] + fs);
        lemma_move_across(fp, a, mid, fs);
    }
}

/// The grid after `k`-th neighbor's slide: the tile at `t`, next to the
/// blank, exchanged with it.
pub proof fn lemma_neighbor_cell(g: Seq<Seq<usize>>, k: int) -> (t: (int, int))
    requires
        valid_grid(g),
        0 <= k < neighbors_of(g).len(),
    ensures
        in_grid(g.len() as int, t.0, t.1),
        (t.0 == blank_of(g).0 && (t.1 == blank_of(g).1 - 1 || t.1 == blank_of(g).1 + 1)) || (t.1
            == blank_of(g).1 && (t.0 == blank_of(g).0 - 1 || t.0 == blank_of(g).0 + 1)),
        neighbors_of(g)[k] == swap_cells(g, blank_of(g).0, blank_of(g).1, t.0, t.1),
{
    let n = g.len() as int;
    lemma_blank(g);
    let r = blank_of(g).0;
    let c = blank_of(g).1;
    let left: Seq<(int, int)> = if c > 0 {
        seq![(r, c - 1)]
    } else {
        Seq::empty()
    };
    let up: Seq<(int, int)> = if r > 0 {
        seq![(r - 1, c)]
    } else {
        Seq::empty()
    };
    let down: Seq<(int, int)> = if r < n - 1 {
        seq![(r + 1, c)]
    } else {
        Seq::empty()
    };
    let right: Seq<(int, int)> = if c < n - 1 {
        seq![(r, c + 1)]
    } else {
        Seq::empty()
    };
    let cells = left + up + down + right;
    let f = |p: (int, int)| swap_cells(g, r, c, p.0, p.1);
    assert(neighbors_of(g) =~= cells.map_values(f));
    cells[k]
}

/// The row-major labels of a grid in which the cells `(r1, c1)` and
/// `(r2, c2)` were exchanged.
proof fn lemma_swap_labels(g: Seq<Seq<usize>>, r1: int, c1: int, r2: int, c2: int)
    requires
        valid_grid(g),
        in_grid(g.len() as int, r1, c1),
        in_grid(g.len() as int, r2, c2),
    ensures
        valid_grid(swap_cells(g, r1, c1, r2, c2)),
        swap_cells(g, r1, c1, r2, c2).len() == g.len(),
        0 <= r1 * g.len() + c1 < flat(g).len(),
        0 <= r2 * g.len() + c2 < flat(g).len(),
        flat(g)[r1 * g.len() + c1] == g[r1][c1],
        flat(g)[r2 * g.len() + c2] == g[r2][c2],
        flat(swap_cells(g, r1, c1, r2, c2)) == flat(g).update(r1 * g.len() + c1, g[r2][c2]).update(
            r2 * g.len() + c2,
            g[r1][c1],
        ),
        forall|i: int, j: int|
            0 <= i < flat(g).len() && 0 <= j < flat(g).len() && #[trigger] flat(g)[i]
                == #[trigger] flat(g)[j] ==> i == j,
{
    let n = g.len() as int;
    lemma_swap_valid(g, r1, c1, r2, c2);
    lemma_flat_valid(g);
    lemma_swap_flat(g, r1, c1, r2, c2);
    assert(0 <= r1 * n + c1 < n * n && 0 <= r2 * n + c2 < n * n) by (nonlinear_arith)
        requires
            0 <= r1 < n,
            0 <= c1 < n,
            0 <= r2 < n,
            0 <= c2 < n,
    ;
}

/// The parity of the tiles' inversions after exchanging the cells at
/// row-major positions `p` and `q`, one of them the blank.
proof fn lemma_exchange_parity(s: Seq<usize>, p: int, q: int, u: Seq<usize>)
    requires
        0 <= p < s.len(),
        0 <= q < s.len(),
        p != q,
        s[p] == 0 || s[q] == 0,
        u == s.update(p, s[q]).update(q, s[p]),
        forall|i: int, j: int|
            0 <= i < s.len() && 0 <= j < s.len() && #[trigger] s[i] == #[trigger] s[j] ==> i == j,
    ensures
        p < q ==> (inversions(nonblank(s)) + (q - p - 1)) % 2 == inversions(nonblank(u)) % 2,
        q < p ==> (inversions(nonblank(s)) + (p - q - 1)) % 2 == inversions(nonblank(u)) % 2,
{
    if p < q {
        lemma_slide_parity(s, p, q);
    } else {
        lemma_slide_parity(s, q, p);
        assert(s.update(q, s[p]).update(p, s[q]) =~= u);
    }
}

/// No slide of a tile into the blank changes the parity class.
pub proof fn lemma_move_keeps_class(g: Seq<Seq<usize>>, k: int)
    requires
        valid_grid(g),
        0 <= k < neighbors_of(g).len(),
    ensures
        valid_grid(neighbors_of(g)[k]),
        neighbors_of(g)[k].len() == g.len(),
        parity_class(neighbors_of(g)[k]) == parity_class(g),
{
    let n = g.len() as int;
    lemma_blank(g);
    let r = blank_of(g).0;
    let c = blank_of(g).1;
    let t = lemma_neighbor_cell(g, k);
    let h = swap_cells(g, r, c, t.0, t.1);
    lemma_swap_labels(g, r, c, t.0, t.1);
    lemma_blank(h);
    assert(h[t.0][t.1] == 0);
    assert(blank_of(h) == t);
    let pb = r * n + c;
    let pt = t.0 * n + t.1;
    lemma_exchange_parity(flat(g), pb, pt, flat(h));
    if t.0 == r {
        assert(pt - pb == 1 || pb - pt == 1);
    } else {
        assert(pt - pb == n || pb - pt == n) by (nonlinear_arith)
            requires
                pt == t.0 * n + t.1,
                pb == r * n + c,
                t.1 == c,
                t.0 == r - 1 || t.0 == r + 1,
        ;
    }
}

/// The first two tiles sit at row-major positions `pa < pb` with only the
/// blank, if anything, between them.
proof fn lemma_twin_positions(g: Seq<Seq<usize>>)
    requires
        valid_grid(g),
    ensures
        ({
            let n = g.len() as int;
            let (a, b) = twin_cells(g);
            let pa = a.0 * n + a.1;
            let pb = b.0 * n + b.1;
            &&& in_grid(n, a.0, a.1)
            &&& in_grid(n, b.0, b.1)
            &&& 0 <= pa < pb < flat(g).len()
            &&& flat(g)[pa] == g[a.0][a.1] && flat(g)[pa] != 0
            &&& flat(g)[pb] == g[b.0][b.1] && flat(g)[pb] != 0
            &&& forall|i: int| pa < i < pb ==> flat(g)[i] == 0
        }),
{
    let n = g.len() as int;
    lemma_first_cells(n);
    lemma_blank(g);
    lemma_flat_valid(g);
    let (a, b) = twin_cells(g);
    let c1 = next_cell(n, (0, 0));
    let c2 = next_cell(n, c1);
    let c3 = next_cell(n, c2);
    assert(c1 == (0int, 1int));
    assert(0 * n == 0 && 1 * n == n) by (nonlinear_arith);
    if n > 2 {
        assert(c2 == (0int, 2int));
    } else {
        assert(c2 == (1int, 0int));
    }
    assert(c2.0 * n + c2.1 == 2);
    assert(c3.0 * n + c3.1 == 3) by (nonlinear_arith)
        requires
            c3 == (if c2.1 + 1 < n {
                (c2.0, c2.1 + 1)
            } else {
                (c2.0 + 1, 0)
            }),
            c2.0 * n + c2.1 == 2,
            0 <= c2.1 < n,
            c2.0 == 0 || c2.0 == 1,
            n >= 2,
    ;
    assert(n * n >= 4) by (nonlinear_arith)
        requires
            n >= 2,
    ;
    assert(flat(g)[c1.0 * n + c1.1] == g[c1.0][c1.1]);
    assert(flat(g)[c2.0 * n + c2.1] == g[c2.0][c2.1]);
    assert(flat(g)[0 * n + 0] == g[0][0]);
    assert(flat(g)[c3.0 * n + c3.1] == g[c3.0][c3.1]);
}

/// Exchanging two tiles with only blanks between them flips the parity of
/// the inversions.
proof fn lemma_exchange_tiles_parity(s: Seq<usize>, pa: int, pb: int, u: Seq<usize>)
    requires
        0 <= pa < pb < s.len(),
        s[pa] != 0,
        s[pb] != 0,
        forall|i: int| pa < i < pb ==> s[i] == 0,
        u == s.update(pa, s[pb]).update(pb, s[pa]),
        s[pa] != s[pb],
    ensures
        inversions(nonblank(u)) % 2 != inversions(nonblank(s)) % 2,
{
    let x = s[pa];
    let y = s[pb];
    let pre = s.take(pa);
    let mid = s.subrange(pa + 1, pb);
    let post = s.skip(pb + 1);
    assert(s =~= pre + seq![x] + mid + seq![y] + post);
    assert(u =~= pre + seq![y] + mid + seq![x] + post);
    lemma_nonblank_concat(pre + seq![x] + mid + seq![y], post);
    lemma_nonblank_concat(pre + seq![x] + mid, seq![y]);
    lemma_nonblank_concat(pre + seq![x], mid);
    lemma_nonblank_concat(pre, seq![x]);
    lemma_nonblank_concat(pre + seq![y] + mid + seq![x], post);
    lemma_nonblank_concat(pre + seq![y] + mid, seq![x]);
    lemma_nonblank_concat(pre + seq![y], mid);
    lemma_nonblank_concat(pre, seq![y]);
    lemma_nonblank_single(x);
    lemma_nonblank_single(y);
    lemma_nonblank_blanks(mid);
    let fp = nonblank(pre);
    let fs = nonblank(post);
    assert(nonblank(s) =~= fp + seq![x, y] + fs);
    assert(nonblank(u) =~= fp + seq![y, x] + fs);
    lemma_swap_adjacent(fp, x, y, fs);
}

/// Exchanging the first two tiles flips the parity class.
pub proof fn lemma_twin_flips_class(g: Seq<Seq<usize>>)
    requires
        valid_grid(g),
    ensures
        valid_grid(twin_of(g)),
        twin_of(g).len() == g.len(),
        parity_class(twin_of(g)) != parity_class(g),
{
    let n = g.len() as int;
    lemma_twin_positions(g);
    let (a, b) = twin_cells(g);
    let h = twin_of(g);
    lemma_swap_labels(g, a.0, a.1, b.0, b.1);
    lemma_blank(g);
    lemma_blank(h);
    let pa = a.0 * n + a.1;
    let pb = b.0 * n + b.1;
    assert(h[blank_of(g).0][blank_of(g).1] == 0);
    assert(blank_of(h) == blank_of(g));
    lemma_exchange_tiles_parity(flat(g), pa, pb, flat(h));
}

proof fn lemma_count_less_none(x: usize, s: Seq<usize>)
    requires
        forall|i: int| 0 <= i < s.len() ==> s[i] > x,
    ensures
        count_less(x, s) == 0,
    decreases s.len(),
{
    if s.len() > 0 {
        lemma_count_less_none(x, s.drop_first());
    }
}

proof fn lemma_increasing_no_inversions(s: Seq<usize>)
    requires
        forall|i: int, j: int| 0 <= i < j < s.len() ==> s[i] < s[j],
    ensures
        inversions(s) == 0,
    decreases s.len(),
{
    if s.len() > 0 {
        let rest = s.drop_first();
        assert forall|i: int| 0 <= i < rest.len() implies rest[i] > s[0] by {
            assert(rest[i] == s[i + 1]);
        }
        lemma_count_less_none(s[0], rest);
        lemma_increasing_no_inversions(rest);
    }
}

/// The goal board lies in the goal class.
pub proof fn lemma_goal_class(g: Seq<Seq<usize>>)
    requires
        valid_grid(g),
        is_goal_grid(g),
    ensures
        parity_class(g) == goal_class(g.len() as int),
{
    let n = g.len() as int;
    lemma_flat_valid(g);
    lemma_blank(g);
    let s = flat(g);
    assert(n * n >= 4) by (nonlinear_arith)
        requires
            n >= 2,
    ;
    assert((n - 1) * n + (n - 1) == n * n - 1) by (nonlinear_arith);
    assert(s[(n - 1) * n + (n - 1)] == g[n - 1][n - 1]);
    assert(g[n - 1][n - 1] == goal_label(n, n - 1, n - 1));
    assert(blank_of(g) == (n - 1, n - 1));
    let head = s.drop_last();
    assert forall|k: int| 0 <= k < head.len() implies #[trigger] head[k] == k + 1 by {
        vstd::arithmetic::div_mod::lemma_fundamental_div_mod(k, n);
        let r = k / n;
        let c = k % n;
        assert(0 <= r < n) by (nonlinear_arith)
            requires
                k == n * r + c,
                0 <= c < n,
                0 <= k < n * n,
        ;
        assert(n * r == r * n) by (nonlinear_arith);
        assert(s[r * n + c] == g[r][c]);
        assert(g[r][c] == goal_label(n, r, c));
    }
    assert(!head.contains(0)) by {
        if head.contains(0) {
            let k = choose|k: int| 0 <= k < head.len() && head[k] == 0;
            assert(head[k] == k + 1);
        }
    }
    lemma_nonblank_keeps(head);
    assert(s.last() == 0);
    assert(tiles_of(g) == head);
    lemma_increasing_no_inversions(head);
}

/// Along a sequence of moves from a valid board, every board is valid, of
/// the same width, and in the same class.
pub proof fn lemma_moves_keep_class(path: Seq<Seq<Seq<usize>>>, i: int)
    requires
        path.len() >= 1,
        valid_grid(path[0]),
        forall|k: int| 0 < k < path.len() ==> neighbors_of(#[trigger] path[k - 1]).contains(path[k]),
        0 <= i < path.len(),
    ensures
        valid_grid(path[i]),
        path[i].len() == path[0].len(),
        parity_class(path[i]) == parity_class(path[0]),
    decreases i,
{
    if i > 0 {
        lemma_moves_keep_class(path, i - 1);
        assert(neighbors_of(path[i - 1]).contains(path[i]));
        let moves = neighbors_of(path[i - 1]);
        let k = choose|k: int| 0 <= k < moves.len() && #[trigger] moves[k] == path[i];
        lemma_move_keeps_class(path[i - 1], k);
    }
}

proof fn lemma_nonblank_blanks(s: Seq<usize>)
    requires
        forall|i: int| 0 <= i < s.len() ==> s[i] == 0,
    ensures
        nonblank(s) == Seq::<usize>::empty(),
    decreases s.len(),
{
    if s.len() > 0 {
        lemma_nonblank_blanks(s.drop_last());
    }
}

} // verus!
