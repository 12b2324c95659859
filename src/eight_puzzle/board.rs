use vstd::prelude::*;

use crate::error::AlgoError;

verus! {

/// The Manhattan distance of an `n`-wide board is below `n * n * (2 * n)`:
/// fewer than `n * n` tiles, each at most `2 * n` moves from its goal cell. A
/// board is representable when that bound fits in half a `usize`, so that a
/// search can add its depth to the distance without overflow. On a 64-bit
/// `usize` this admits every `n` up to about two million.
#[verifier::opaque]
pub open spec fn heuristic_fits(n: int) -> bool {
    n * n * (2 * n) <= usize::MAX / 2
}

/// `x <= m / d` exactly when `x * d <= m`.
proof fn lemma_le_div(x: int, m: int, d: int)
    requires
        0 <= x,
        0 <= m,
        0 < d,
    ensures
        (x <= m / d) == (x * d <= m),
{
    vstd::arithmetic::div_mod::lemma_fundamental_div_mod(m, d);
    let q = m / d;
    let r = m % d;
    if x <= q {
        vstd::arithmetic::mul::lemma_mul_inequality(x, q, d);
        assert(q * d == d * q) by (nonlinear_arith);
    } else {
        vstd::arithmetic::mul::lemma_mul_inequality(q + 1, x, d);
        assert((q + 1) * d == d * q + d) by (nonlinear_arith);
    }
}

/// On a representable width, the cell count fits as well.
proof fn lemma_fits(n: int)
    requires
        n >= 2,
        heuristic_fits(n),
    ensures
        n * n <= usize::MAX / 2,
        n <= n * n,
        n * n * (2 * n) <= usize::MAX / 2,
{
    reveal(heuristic_fits);
    vstd::arithmetic::mul::lemma_mul_strictly_positive(n, n);
    vstd::arithmetic::mul::lemma_mul_increases(2 * n, n * n);
    vstd::arithmetic::mul::lemma_mul_increases(n, n);
    assert((n * n) * (2 * n) == (2 * n) * (n * n)) by (nonlinear_arith);
}

/// A square grid of tiles. Label `0` is the blank; a valid board of dimension
/// `n` holds each label of `0..n*n` exactly once.
#[derive(Debug, Clone, PartialOrd, Ord)]
pub struct Board {
    tiles: Vec<Vec<usize>>,
}

/// The rows of a grid, each as a sequence of labels.
pub open spec fn rows_view(t: Seq<Vec<usize>>) -> Seq<Seq<usize>> {
    t.map_values(|row: Vec<usize>| row@)
}

pub open spec fn in_grid(n: int, r: int, c: int) -> bool {
    0 <= r < n && 0 <= c < n
}

/// Every row is as long as the grid is high.
pub open spec fn is_square(g: Seq<Seq<usize>>) -> bool {
    forall|r: int| 0 <= r < g.len() ==> #[trigger] g[r].len() == g.len()
}

pub open spec fn labels_in_range(g: Seq<Seq<usize>>) -> bool {
    forall|r: int, c: int|
        in_grid(g.len() as int, r, c) ==> (#[trigger] g[r][c]) < g.len() * g.len()
}

pub open spec fn labels_distinct(g: Seq<Seq<usize>>) -> bool {
    forall|r1: int, c1: int, r2: int, c2: int|
        in_grid(g.len() as int, r1, c1) && in_grid(g.len() as int, r2, c2) && #[trigger] g[r1][c1]
            == #[trigger] g[r2][c2] ==> r1 == r2 && c1 == c2
}

pub open spec fn holds_label(g: Seq<Seq<usize>>, v: int) -> bool {
    exists|r: int, c: int| in_grid(g.len() as int, r, c) && g[r][c] == v
}

pub open spec fn labels_complete(g: Seq<Seq<usize>>) -> bool {
    forall|v: int| 0 <= v < g.len() * g.len() ==> #[trigger] holds_label(g, v)
}

/// A square grid of dimension at least two whose labels are exactly `0..n*n`.
pub open spec fn valid_grid(g: Seq<Seq<usize>>) -> bool {
    &&& g.len() >= 2
    &&& is_square(g)
    &&& labels_in_range(g)
    &&& labels_distinct(g)
    &&& labels_complete(g)
}

/// Label that the goal board holds at `(r, c)`: `1, 2, ...` in row-major
/// order, and the blank in the last cell.
pub open spec fn goal_label(n: int, r: int, c: int) -> int {
    if r == n - 1 && c == n - 1 {
        0
    } else {
        r * n + c + 1
    }
}

pub open spec fn is_goal_grid(g: Seq<Seq<usize>>) -> bool {
    forall|r: int, c: int|
        in_grid(g.len() as int, r, c) ==> #[trigger] g[r][c] == goal_label(g.len() as int, r, c)
}

/// A tile (not the blank) that is not where the goal board has it.
pub open spec fn misplaced(g: Seq<Seq<usize>>, r: int, c: int) -> bool {
    g[r][c] != 0 && g[r][c] != r * g.len() + c + 1
}

pub open spec fn abs_diff(a: int, b: int) -> nat {
    if a >= b {
        (a - b) as nat
    } else {
        (b - a) as nat
    }
}

/// Rows plus columns between the tile at `(r, c)` and its goal cell; zero
/// for the blank.
pub open spec fn tile_distance(g: Seq<Seq<usize>>, r: int, c: int) -> nat {
    let n = g.len() as int;
    let t = g[r][c] as int;
    if t == 0 {
        0
    } else {
        abs_diff(r, (t - 1) / n) + abs_diff(c, (t - 1) % n)
    }
}

pub open spec fn hamming_term(g: Seq<Seq<usize>>) -> spec_fn(int, int) -> nat {
    |r: int, c: int|
        if misplaced(g, r, c) {
            1nat
        } else {
            0nat
        }
}

pub open spec fn manhattan_term(g: Seq<Seq<usize>>) -> spec_fn(int, int) -> nat {
    |r: int, c: int| tile_distance(g, r, c)
}

/// Sum of `f(r, j)` over the columns `j < c` of row `r`.
pub open spec fn row_sum(f: spec_fn(int, int) -> nat, r: int, c: int) -> nat
    decreases c,
{
    if c <= 0 {
        0
    } else {
        row_sum(f, r, c - 1) + f(r, c - 1)
    }
}

/// Sum of `f` over the first `r` rows of an `n`-wide grid.
pub open spec fn grid_sum(f: spec_fn(int, int) -> nat, n: int, r: int) -> nat
    decreases r,
{
    if r <= 0 {
        0
    } else {
        grid_sum(f, n, r - 1) + row_sum(f, r - 1, n)
    }
}

/// Number of misplaced tiles.
pub open spec fn hamming_of(g: Seq<Seq<usize>>) -> nat {
    grid_sum(hamming_term(g), g.len() as int, g.len() as int)
}

/// Sum of the tiles' distances to their goal cells.
pub open spec fn manhattan_of(g: Seq<Seq<usize>>) -> nat {
    grid_sum(manhattan_term(g), g.len() as int, g.len() as int)
}

pub proof fn lemma_row_sum_zero(f: spec_fn(int, int) -> nat, r: int, c: int)
    requires
        c >= 0,
    ensures
        row_sum(f, r, c) == 0 <==> forall|j: int| 0 <= j < c ==> #[trigger] f(r, j) == 0,
    decreases c,
{
    if c > 0 {
        lemma_row_sum_zero(f, r, c - 1);
    }
}

pub proof fn lemma_grid_sum_zero(f: spec_fn(int, int) -> nat, n: int, r: int)
    requires
        n >= 0,
        r >= 0,
    ensures
        grid_sum(f, n, r) == 0 <==> forall|i: int, j: int|
            0 <= i < r && 0 <= j < n ==> #[trigger] f(i, j) == 0,
    decreases r,
{
    if r > 0 {
        lemma_grid_sum_zero(f, n, r - 1);
        lemma_row_sum_zero(f, r - 1, n);
        if grid_sum(f, n, r) == 0 {
            assert forall|i: int, j: int| 0 <= i < r && 0 <= j < n implies #[trigger] f(i, j) == 0 by {
                if i < r - 1 {
                } else {
                    assert(f(r - 1, j) == 0);
                }
            }
        }
    }
}

/// On a valid grid a tile's distance bounds: its goal row lies inside the
/// grid, and the distance is at most `2 * n`.
pub proof fn lemma_tile_distance_bound(g: Seq<Seq<usize>>, r: int, c: int)
    requires
        valid_grid(g),
        in_grid(g.len() as int, r, c),
    ensures
        tile_distance(g, r, c) <= 2 * g.len(),
        g[r][c] != 0 ==> (g[r][c] - 1) / (g.len() as int) < g.len(),
{
    let n = g.len() as int;
    let t = g[r][c] as int;
    assert(t < n * n);
    if t != 0 {
        let q = (t - 1) / n;
        let m = (t - 1) % n;
        vstd::arithmetic::div_mod::lemma_fundamental_div_mod(t - 1, n);
        assert(0 <= m < n);
        assert(0 <= q < n) by (nonlinear_arith)
            requires
                t - 1 == n * q + m,
                0 <= m < n,
                0 <= t - 1 < n * n,
                n > 0,
        ;
    }
}

/// A tile is at distance zero from its goal cell exactly when it is not
/// misplaced.
pub proof fn lemma_distance_zero_iff_placed(g: Seq<Seq<usize>>, r: int, c: int)
    requires
        valid_grid(g),
        in_grid(g.len() as int, r, c),
    ensures
        tile_distance(g, r, c) == 0 <==> !misplaced(g, r, c),
{
    let n = g.len() as int;
    let t = g[r][c] as int;
    if t != 0 {
        let q = (t - 1) / n;
        let m = (t - 1) % n;
        vstd::arithmetic::div_mod::lemma_fundamental_div_mod(t - 1, n);
        if q == r && m == c {
            assert(t == r * n + c + 1) by (nonlinear_arith)
                requires
                    t - 1 == n * q + m,
                    q == r,
                    m == c,
            ;
        }
        if t == r * n + c + 1 {
            vstd::arithmetic::div_mod::lemma_fundamental_div_mod_converse(t - 1, n, r, c);
        }
    }
}

/// On a valid grid, having no misplaced tile is being the goal board.
pub proof fn lemma_goal_iff_none_misplaced(g: Seq<Seq<usize>>)
    requires
        valid_grid(g),
    ensures
        is_goal_grid(g) <==> forall|r: int, c: int|
            in_grid(g.len() as int, r, c) ==> !#[trigger] misplaced(g, r, c),
{
    let n = g.len() as int;
    assert((n - 1) * n + (n - 1) + 1 == n * n) by (nonlinear_arith);
    if forall|r: int, c: int| in_grid(n, r, c) ==> !#[trigger] misplaced(g, r, c) {
        assert(!misplaced(g, n - 1, n - 1));
        assert(g[n - 1][n - 1] < n * n);
        assert(g[n - 1][n - 1] == 0);
        assert forall|r: int, c: int| in_grid(n, r, c) implies #[trigger] g[r][c] == goal_label(
            n,
            r,
            c,
        ) by {
            assert(!misplaced(g, r, c));
            if !(r == n - 1 && c == n - 1) && g[r][c] == 0 {
                assert(g[r][c] == g[n - 1][n - 1]);
            }
        }
    }
    if is_goal_grid(g) {
        assert forall|r: int, c: int| in_grid(n, r, c) implies !#[trigger] misplaced(g, r, c) by {
            assert(g[r][c] == goal_label(n, r, c));
        }
    }
}

/// On a valid board, being the goal, having no misplaced tile and having a
/// Manhattan distance of zero are one and the same.
pub proof fn lemma_goal_hamming_manhattan(g: Seq<Seq<usize>>)
    requires
        valid_grid(g),
    ensures
        is_goal_grid(g) <==> hamming_of(g) == 0,
        hamming_of(g) == 0 <==> manhattan_of(g) == 0,
{
    let n = g.len() as int;
    lemma_goal_iff_none_misplaced(g);
    lemma_grid_sum_zero(hamming_term(g), n, n);
    lemma_grid_sum_zero(manhattan_term(g), n, n);
    assert forall|r: int, c: int| in_grid(n, r, c) implies (#[trigger] misplaced(g, r, c)
        <==> hamming_term(g)(r, c) != 0) && (misplaced(g, r, c) <==> manhattan_term(g)(r, c)
        != 0) by {
        lemma_distance_zero_iff_placed(g, r, c);
    }
    if hamming_of(g) == 0 {
        assert forall|i: int, j: int| 0 <= i < n && 0 <= j < n implies #[trigger] manhattan_term(
            g,
        )(i, j) == 0 by {
            assert(hamming_term(g)(i, j) == 0);
            assert(in_grid(n, i, j));
        }
    }
    if manhattan_of(g) == 0 {
        assert forall|i: int, j: int| 0 <= i < n && 0 <= j < n implies #[trigger] hamming_term(g)(
            i,
            j,
        ) == 0 by {
            assert(manhattan_term(g)(i, j) == 0);
            assert(in_grid(n, i, j));
        }
    }
    if is_goal_grid(g) {
        assert forall|i: int, j: int| 0 <= i < n && 0 <= j < n implies #[trigger] hamming_term(g)(
            i,
            j,
        ) == 0 by {
            assert(in_grid(n, i, j));
        }
    }
    if hamming_of(g) == 0 {
        assert forall|r: int, c: int| in_grid(n, r, c) implies !#[trigger] misplaced(g, r, c) by {
            assert(hamming_term(g)(r, c) == 0);
        }
    }
}

/// The cell that holds the blank.
pub open spec fn blank_of(g: Seq<Seq<usize>>) -> (int, int) {
    choose|p: (int, int)| in_grid(g.len() as int, p.0, p.1) && g[p.0][p.1] == 0
}

/// The grid with the labels of cells `(r1, c1)` and `(r2, c2)` exchanged.
pub open spec fn swap_cells(g: Seq<Seq<usize>>, r1: int, c1: int, r2: int, c2: int) -> Seq<
    Seq<usize>,
> {
    let g1 = g.update(r1, g[r1].update(c1, g[r2][c2]));
    g1.update(r2, g1[r2].update(c2, g[r1][c1]))
}

/// The grids reached by sliding a tile into the blank, trying the tile left
/// of it, above it, below it and right of it, in that order.
pub open spec fn neighbors_of(g: Seq<Seq<usize>>) -> Seq<Seq<Seq<usize>>> {
    let n = g.len() as int;
    let r = blank_of(g).0;
    let c = blank_of(g).1;
    let left = if c > 0 {
        seq![swap_cells(g, r, c, r, c - 1)]
    } else {
        Seq::empty()
    };
    let up = if r > 0 {
        seq![swap_cells(g, r, c, r - 1, c)]
    } else {
        Seq::empty()
    };
    let down = if r < n - 1 {
        seq![swap_cells(g, r, c, r + 1, c)]
    } else {
        Seq::empty()
    };
    let right = if c < n - 1 {
        seq![swap_cells(g, r, c, r, c + 1)]
    } else {
        Seq::empty()
    };
    left + up + down + right
}

/// The cell after `p` in row-major order of an `n`-wide grid.
pub open spec fn next_cell(n: int, p: (int, int)) -> (int, int) {
    if p.1 + 1 < n {
        (p.0, p.1 + 1)
    } else {
        (p.0 + 1, 0)
    }
}

/// The first two cells, in row-major order, that hold a tile rather than
/// the blank. As a grid has one blank, they lie among the first three cells.
pub open spec fn twin_cells(g: Seq<Seq<usize>>) -> ((int, int), (int, int)) {
    let n = g.len() as int;
    let first = if g[0][0] != 0 {
        (0int, 0int)
    } else {
        next_cell(n, (0, 0))
    };
    let after = next_cell(n, first);
    let second = if g[after.0][after.1] != 0 {
        after
    } else {
        next_cell(n, after)
    };
    (first, second)
}

/// The grid with its first two tiles in row-major order exchanged.
pub open spec fn twin_of(g: Seq<Seq<usize>>) -> Seq<Seq<usize>> {
    let (a, b) = twin_cells(g);
    swap_cells(g, a.0, a.1, b.0, b.1)
}

/// A valid grid has exactly one blank, at `blank_of`.
pub proof fn lemma_blank(g: Seq<Seq<usize>>)
    requires
        valid_grid(g),
    ensures
        in_grid(g.len() as int, blank_of(g).0, blank_of(g).1),
        g[blank_of(g).0][blank_of(g).1] == 0,
        forall|r: int, c: int|
            in_grid(g.len() as int, r, c) && #[trigger] g[r][c] == 0 ==> r == blank_of(g).0 && c
                == blank_of(g).1,
{
    let n = g.len() as int;
    assert(n * n > 0) by (nonlinear_arith)
        requires
            n >= 2,
    ;
    assert(holds_label(g, 0));
    let (r, c) = choose|r: int, c: int| in_grid(n, r, c) && g[r][c] == 0;
    assert(in_grid(n, r, c) && g[r][c] == 0);
}

/// Exchanging two cells of a valid grid gives a valid grid.
pub proof fn lemma_swap_valid(g: Seq<Seq<usize>>, r1: int, c1: int, r2: int, c2: int)
    requires
        valid_grid(g),
        in_grid(g.len() as int, r1, c1),
        in_grid(g.len() as int, r2, c2),
    ensures
        valid_grid(swap_cells(g, r1, c1, r2, c2)),
        swap_cells(g, r1, c1, r2, c2).len() == g.len(),
        forall|r: int, c: int|
            in_grid(g.len() as int, r, c) ==> #[trigger] swap_cells(g, r1, c1, r2, c2)[r][c] == if r
                == r2 && c == c2 {
                g[r1][c1]
            } else if r == r1 && c == c1 {
                g[r2][c2]
            } else {
                g[r][c]
            },
{
    let n = g.len() as int;
    let h = swap_cells(g, r1, c1, r2, c2);
    assert(h.len() == n);
    assert forall|r: int, c: int| in_grid(n, r, c) implies #[trigger] h[r][c] == if r == r2 && c
        == c2 {
        g[r1][c1]
    } else if r == r1 && c == c1 {
        g[r2][c2]
    } else {
        g[r][c]
    } by {}
    assert(is_square(h));
    assert forall|v: int| 0 <= v < n * n implies #[trigger] holds_label(h, v) by {
        assert(holds_label(g, v));
        let (r, c) = choose|r: int, c: int| in_grid(n, r, c) && g[r][c] == v;
        if r == r1 && c == c1 {
            assert(in_grid(h.len() as int, r2, c2) && h[r2][c2] == v);
        } else if r == r2 && c == c2 {
            assert(in_grid(h.len() as int, r1, c1) && h[r1][c1] == v);
        } else {
            assert(in_grid(h.len() as int, r, c) && h[r][c] == v);
        }
    }
    assert(labels_in_range(h)) by {
        assert forall|r: int, c: int| in_grid(n, r, c) implies (#[trigger] h[r][c]) < n * n by {
            assert(g[r1][c1] < n * n && g[r2][c2] < n * n && g[r][c] < n * n);
        }
    }
    assert(labels_distinct(h)) by {
        assert forall|ra: int, ca: int, rb: int, cb: int|
            in_grid(n, ra, ca) && in_grid(n, rb, cb) && #[trigger] h[ra][ca] == #[trigger] h[rb][cb]
            implies ra == rb && ca == cb by {
            let pa = if ra == r2 && ca == c2 {
                (r1, c1)
            } else if ra == r1 && ca == c1 {
                (r2, c2)
            } else {
                (ra, ca)
            };
            let pb = if rb == r2 && cb == c2 {
                (r1, c1)
            } else if rb == r1 && cb == c1 {
                (r2, c2)
            } else {
                (rb, cb)
            };
            assert(h[ra][ca] == g[pa.0][pa.1]);
            assert(h[rb][cb] == g[pb.0][pb.1]);
        }
    }
}

/// The first three cells in row-major order lie inside any grid at least
/// two wide, and differ from each other.
pub proof fn lemma_first_cells(n: int)
    requires
        n >= 2,
    ensures
        in_grid(n, next_cell(n, (0, 0)).0, next_cell(n, (0, 0)).1),
        in_grid(n, next_cell(n, next_cell(n, (0, 0))).0, next_cell(n, next_cell(n, (0, 0))).1),
        in_grid(
            n,
            next_cell(n, next_cell(n, next_cell(n, (0, 0)))).0,
            next_cell(n, next_cell(n, next_cell(n, (0, 0)))).1,
        ),
        next_cell(n, next_cell(n, (0, 0))) != (0int, 0int),
        next_cell(n, next_cell(n, (0, 0))) != next_cell(n, (0, 0)),
        next_cell(n, next_cell(n, next_cell(n, (0, 0)))) != next_cell(n, (0, 0)),
        next_cell(n, next_cell(n, next_cell(n, (0, 0)))) != next_cell(n, next_cell(n, (0, 0))),
        next_cell(n, (0, 0)) != (0int, 0int),
{
}

/// A valid grid has at least two neighbors, and the first two differ.
pub proof fn lemma_first_neighbors_differ(g: Seq<Seq<usize>>)
    requires
        valid_grid(g),
    ensures
        neighbors_of(g).len() >= 2,
        neighbors_of(g)[0] != neighbors_of(g)[1],
{
    let n = g.len() as int;
    lemma_blank(g);
    let r = blank_of(g).0;
    let c = blank_of(g).1;
    let left: Seq<(int, int)> = if c > 0 {
        seq![(r, c - 1)]
    } else {
        Seq::empty()
    };
    let up: Seq<(int, int)> = if r > 0 {
        seq![(r - 1, c)]
    } else {
        Seq::empty()
    };
    let down: Seq<(int, int)> = if r < n - 1 {
        seq![(r + 1, c)]
    } else {
        Seq::empty()
    };
    let right: Seq<(int, int)> = if c < n - 1 {
        seq![(r, c + 1)]
    } else {
        Seq::empty()
    };
    let cells = left + up + down + right;
    let f = |p: (int, int)| swap_cells(g, r, c, p.0, p.1);
    assert(neighbors_of(g) =~= cells.map_values(f));
    assert(cells.len() >= 2);
    let p = cells[0];
    let q = cells[1];
    assert(p != q && in_grid(n, p.0, p.1) && in_grid(n, q.0, q.1) && q != (r, c) && p != (r, c));
    lemma_swap_valid(g, r, c, p.0, p.1);
    lemma_swap_valid(g, r, c, q.0, q.1);
    assert(g[q.0][q.1] != 0);
    assert(neighbors_of(g)[0][q.0][q.1] != neighbors_of(g)[1][q.0][q.1]);
}

impl View for Board {
    type V = Seq<Seq<usize>>;

    closed spec fn view(&self) -> Seq<Seq<usize>> {
        rows_view(self.tiles@)
    }
}

impl Board {
    /// A board is well formed when its grid is valid and its width
    /// representable (`heuristic_fits`).
    pub open spec fn wf(&self) -> bool {
        valid_grid(self@) && heuristic_fits(self@.len() as int)
    }

    pub open spec fn dim(&self) -> nat {
        self@.len()
    }

    /// Creates a board from its rows, `tiles[row][col]` being the tile at
    /// `(row, col)`. Fails with `InvalidBoard` unless the grid is square, at
    /// least two wide, and holds each label of `0..n*n` exactly once; also
    /// when it is too wide for its Manhattan distance to fit in a `usize`
    /// (`heuristic_fits`), which no grid held in memory on a 64-bit machine
    /// can be.
    pub fn new(tiles: Vec<Vec<usize>>) -> (r: Result<Board, AlgoError>)
        ensures
            r is Ok <==> valid_grid(rows_view(tiles@)) && heuristic_fits(tiles@.len() as int),
            r matches Ok(b) ==> b@ == rows_view(tiles@) && b.wf(),
            r matches Err(e) ==> e == AlgoError::InvalidBoard,
    {
        proof {
            reveal(heuristic_fits);
        }
        let n = tiles.len();
        if n < 2 {
            return Err(AlgoError::InvalidBoard);
        }
        let half = usize::MAX / 2;
        proof {
            lemma_le_div(n as int, half as int, n as int);
        }
        if n > half / n {
            proof {
                vstd::arithmetic::mul::lemma_mul_strictly_positive(n as int, n as int);
                vstd::arithmetic::mul::lemma_mul_increases(2 * n as int, (n * n) as int);
                assert((n * n) * (2 * n) == (2 * n) * (n * n)) by (nonlinear_arith);
            }
            return Err(AlgoError::InvalidBoard);
        }
        proof {
            vstd::arithmetic::mul::lemma_mul_inequality(2, n as int, n as int);
        }
        assert(2 * n <= half);
        let sq = n * n;
        proof {
            lemma_le_div(sq as int, half as int, 2 * n as int);
        }
        if sq > half / (2 * n) {
            return Err(AlgoError::InvalidBoard);
        }
        assert(heuristic_fits(n as int)) by {
            reveal(heuristic_fits);
        }
        let ghost g = rows_view(tiles@);
        let mut r: usize = 0;
        while r < n
            invariant
                0 <= r <= n,
                n == tiles@.len(),
                g == rows_view(tiles@),
                forall|i: int| 0 <= i < r ==> #[trigger] g[i].len() == n,
            decreases n - r,
        {
            assert(g[r as int] == tiles@[r as int]@);
            if tiles[r].len() != n {
                return Err(AlgoError::InvalidBoard);
            }
            r += 1;
        }
        let size = n * n;
        let mut seen: Vec<bool> = Vec::new();
        let mut k: usize = 0;
        while k < size
            invariant
                0 <= k <= size,
                seen@.len() == k,
                forall|i: int| 0 <= i < k ==> !(#[trigger] seen@[i]),
            decreases size - k,
        {
            seen.push(false);
            k += 1;
        }
        // mark each label; a label out of range or seen twice refuses the grid
        let mut r: usize = 0;
        while r < n
            invariant
                0 <= r <= n,
                n == tiles@.len(),
                n >= 2,
                heuristic_fits(n as int),
                size == n * n,
                g == rows_view(tiles@),
                is_square(g),
                g.len() == n,
                seen@.len() == size,
                forall|i: int, j: int| 0 <= i < r && 0 <= j < n ==> #[trigger] g[i][j] < size,
                forall|i1: int, j1: int, i2: int, j2: int|
                    0 <= i1 < r && 0 <= j1 < n && 0 <= i2 < r && 0 <= j2 < n && #[trigger] g[i1][j1]
                        == #[trigger] g[i2][j2] ==> i1 == i2 && j1 == j2,
                forall|v: int|
                    0 <= v < size ==> (#[trigger] seen@[v] <==> exists|i: int, j: int|
                        0 <= i < r && 0 <= j < n && g[i][j] == v),
            decreases n - r,
        {
            let row = &tiles[r];
            assert(row@ == g[r as int]);
            let mut c: usize = 0;
            while c < n
                invariant
                    0 <= r < n,
                    0 <= c <= n,
                    n == tiles@.len(),
                    size == n * n,
                    g == rows_view(tiles@),
                    is_square(g),
                    g.len() == n,
                    row@ == g[r as int],
                    seen@.len() == size,
                    forall|i: int, j: int|
                        (0 <= i < r && 0 <= j < n) || (i == r && 0 <= j < c) ==> #[trigger] g[i][j]
                            < size,
                    forall|i1: int, j1: int, i2: int, j2: int|
                        ((0 <= i1 < r && 0 <= j1 < n) || (i1 == r && 0 <= j1 < c)) && ((0 <= i2 < r
                            && 0 <= j2 < n) || (i2 == r && 0 <= j2 < c)) && #[trigger] g[i1][j1]
                            == #[trigger] g[i2][j2] ==> i1 == i2 && j1 == j2,
                    forall|v: int|
                        0 <= v < size ==> (#[trigger] seen@[v] <==> exists|i: int, j: int|
                            ((0 <= i < r && 0 <= j < n) || (i == r && 0 <= j < c)) && g[i][j] == v),
                decreases n - c,
            {
                let t = row[c];
                assert(t == g[r as int][c as int]);
                if t >= size {
                    assert(!labels_in_range(g));
                    return Err(AlgoError::InvalidBoard);
                }
                if seen[t] {
                    proof {
                        let (i, j) = choose|i: int, j: int|
                            ((0 <= i < r && 0 <= j < n) || (i == r && 0 <= j < c)) && g[i][j] == t;
                        assert(g[i][j] == g[r as int][c as int]);
                        assert(!labels_distinct(g));
                    }
                    return Err(AlgoError::InvalidBoard);
                }
                let ghost old_seen = seen@;
                seen.set(t, true);
                proof {
                    assert forall|v: int| 0 <= v < size implies (#[trigger] seen@[v] <==> exists|
                        i: int,
                        j: int,
                    | ((0 <= i < r && 0 <= j < n) || (i == r && 0 <= j < c + 1)) && g[i][j] == v) by {
                        if v == t {
                            assert(g[r as int][c as int] == v);
                        } else {
                            assert(seen@[v] == old_seen[v]);
                            if seen@[v] {
                                let (i, j) = choose|i: int, j: int|
                                    ((0 <= i < r && 0 <= j < n) || (i == r && 0 <= j < c))
                                        && g[i][j] == v;
                                assert(((0 <= i < r && 0 <= j < n) || (i == r && 0 <= j < c + 1))
                                    && g[i][j] == v);
                            }
                        }
                    }
                }
                c += 1;
            }
            r += 1;
        }
        assert(labels_in_range(g));
        assert(labels_distinct(g));
        // with every label in range and none twice, each must have been seen
        let mut v: usize = 0;
        while v < size
            invariant
                0 <= v <= size,
                size == n * n,
                g == rows_view(tiles@),
                g.len() == n,
                is_square(g),
                seen@.len() == size,
                forall|x: int|
                    0 <= x < size ==> (#[trigger] seen@[x] <==> exists|i: int, j: int|
                        0 <= i < n && 0 <= j < n && g[i][j] == x),
                forall|x: int| 0 <= x < v ==> #[trigger] holds_label(g, x),
            decreases size - v,
        {
            if !seen[v] {
                proof {
                    if holds_label(g, v as int) {
                        let (i, j) = choose|i: int, j: int|
                            in_grid(g.len() as int, i, j) && g[i][j] == v;
                        assert(0 <= i < n && 0 <= j < n && g[i][j] == v);
                    }
                    assert(!labels_complete(g));
                }
                return Err(AlgoError::InvalidBoard);
            }
            proof {
                let (i, j) = choose|i: int, j: int| 0 <= i < n && 0 <= j < n && g[i][j] == v;
                assert(in_grid(g.len() as int, i, j) && g[i][j] == v);
            }
            v += 1;
        }
        assert(labels_complete(g));
        Ok(Board { tiles })
    }

    /// The label at `(r, c)`; `0` is the blank.
    pub fn tile(&self, r: usize, c: usize) -> (t: usize)
        requires
            self.wf(),
            r < self@.len(),
            c < self@.len(),
        ensures
            t == self@[r as int][c as int],
    {
        proof {
            self.lemma_rows();
        }
        assert(self.tiles@[r as int]@ == self@[r as int]);
        self.tiles[r][c]
    }

    /// Board dimension `n`.
    pub fn dimension(&self) -> (r: usize)
        ensures
            r == self@.len(),
    {
        self.tiles.len()
    }
    /// Number of tiles out of place.
    pub fn hamming(&self) -> (r: usize)
        requires
            self.wf(),
        ensures
            r == hamming_of(self@),
    {
        let n = self.tiles.len();
        let ghost g = self@;
        let ghost f = hamming_term(g);
        let mut ham: usize = 0;
        let mut r: usize = 0;
        while r < n
            invariant
                0 <= r <= n,
                n == g.len(),
                g == self@,
                self.wf(),
                f == hamming_term(g),
                ham == grid_sum(f, n as int, r as int),
                ham <= r * n,
            decreases n - r,
        {
            let row = &self.tiles[r];
            assert(row@ == g[r as int]);
            let mut c: usize = 0;
            while c < n
                invariant
                    0 <= r < n,
                    0 <= c <= n,
                    n == g.len(),
                    g == self@,
                    self.wf(),
                    row@ == g[r as int],
                    f == hamming_term(g),
                    ham == grid_sum(f, n as int, r as int) + row_sum(f, r as int, c as int),
                    ham <= r * n + c,
                decreases n - c,
            {
                assert(r * n + c < n * n) by (nonlinear_arith)
                    requires
                        r < n,
                        c < n,
                ;
                proof {
                    lemma_fits(n as int);
                }
                let t = row[c];
                if t != 0 && t != r * n + c + 1 {
                    ham += 1;
                }
                c += 1;
            }
            assert(r * n + n == (r + 1) * n) by (nonlinear_arith);
            r += 1;
        }
        ham
    }

    /// Sum of the Manhattan distances between the tiles and their goal
    /// cells.
    pub fn manhattan(&self) -> (r: usize)
        requires
            self.wf(),
        ensures
            r == manhattan_of(self@),
            r <= usize::MAX / 2,
    {
        let n = self.tiles.len();
        let ghost g = self@;
        let ghost f = manhattan_term(g);
        proof {
            lemma_fits(n as int);
        }
        let ghost mut done: int = 0;
        let mut man: usize = 0;
        let mut r: usize = 0;
        while r < n
            invariant
                0 <= r <= n,
                n == g.len(),
                g == self@,
                self.wf(),
                n * n * (2 * n) <= usize::MAX / 2,
                f == manhattan_term(g),
                man == grid_sum(f, n as int, r as int),
                done == r * n,
                man <= done * (2 * n),
            decreases n - r,
        {
            let row = &self.tiles[r];
            assert(row@ == g[r as int]);
            let mut c: usize = 0;
            while c < n
                invariant
                    0 <= r < n,
                    0 <= c <= n,
                    n == g.len(),
                    g == self@,
                    self.wf(),
                    n * n * (2 * n) <= usize::MAX / 2,
                    row@ == g[r as int],
                    f == manhattan_term(g),
                    man == grid_sum(f, n as int, r as int) + row_sum(f, r as int, c as int),
                    done == r * n + c,
                    man <= done * (2 * n),
                decreases n - c,
            {
                proof {
                    lemma_tile_distance_bound(g, r as int, c as int);
                }
                assert(done < n * n) by (nonlinear_arith)
                    requires
                        r < n,
                        c < n,
                        done == r * n + c,
                ;
                let t = row[c];
                if t != 0 {
                    let goal_row = (t - 1) / n;
                    let goal_col = (t - 1) % n;
                    let dr = if r >= goal_row {
                        r - goal_row
                    } else {
                        goal_row - r
                    };
                    let dc = if c >= goal_col {
                        c - goal_col
                    } else {
                        goal_col - c
                    };
                    assert(dr + dc == f(r as int, c as int));
                    proof {
                        vstd::arithmetic::mul::lemma_mul_is_distributive_add_other_way(2 * n, done, 1);
                        vstd::arithmetic::mul::lemma_mul_inequality(done + 1, n * n, 2 * n);
                    }
                    assert(man + dr + dc <= (done + 1) * (2 * n));
                    man = man + dr + dc;
                }
                proof {
                    vstd::arithmetic::mul::lemma_mul_inequality(done, done + 1, 2 * n);
                }
                c += 1;
                proof {
                    done = done + 1;
                }
            }
            assert(r * n + n == (r + 1) * n) by (nonlinear_arith);
            r += 1;
        }
        assert(done == n * n);
        assert(man <= n * n * (2 * n));
        man
    }

    /// Whether this is the goal board: tiles `1, 2, ...` in row-major order
    /// with the blank last.
    pub fn is_goal(&self) -> (r: bool)
        requires
            self.wf(),
        ensures
            r == is_goal_grid(self@),
            r == (hamming_of(self@) == 0),
    {
        proof {
            lemma_goal_hamming_manhattan(self@);
        }
        self.hamming() == 0
    }
    proof fn lemma_rows(&self)
        ensures
            self@.len() == self.tiles@.len(),
            forall|i: int| 0 <= i < self@.len() ==> #[trigger] self@[i] == self.tiles@[i]@,
    {
    }

    /// Cell of the blank.
    fn find_zero(&self) -> (p: (usize, usize))
        requires
            self.wf(),
        ensures
            p.0 as int == blank_of(self@).0,
            p.1 as int == blank_of(self@).1,
    {
        let ghost g = self@;
        proof {
            lemma_blank(g);
        }
        let n = self.tiles.len();
        let mut r: usize = 0;
        while r < n
            invariant
                0 <= r <= n,
                n == g.len(),
                g == self@,
                self.wf(),
                forall|i: int, j: int| 0 <= i < r && 0 <= j < n ==> #[trigger] g[i][j] != 0,
            decreases n - r,
        {
            let row = &self.tiles[r];
            assert(row@ == g[r as int]);
            let mut c: usize = 0;
            while c < n
                invariant
                    0 <= r < n,
                    0 <= c <= n,
                    n == g.len(),
                    g == self@,
                    self.wf(),
                    row@ == g[r as int],
                    forall|i: int, j: int|
                        (0 <= i < r && 0 <= j < n) || (i == r && 0 <= j < c) ==> #[trigger] g[i][j]
                            != 0,
                decreases n - c,
            {
                if row[c] == 0 {
                    proof {
                        lemma_blank(g);
                    }
                    assert(g[r as int][c as int] == 0 && in_grid(g.len() as int, r as int, c as int));
                    return (r, c);
                }
                c += 1;
            }
            r += 1;
        }
        assert(g[blank_of(g).0][blank_of(g).1] != 0);
        (0, 0)
    }

    /// An exact copy of this board.
    pub(crate) fn copy(&self) -> (b: Board)
        ensures
            b@ == self@,
    {
        let mut tiles: Vec<Vec<usize>> = Vec::new();
        let mut r: usize = 0;
        while r < self.tiles.len()
            invariant
                0 <= r <= self.tiles@.len(),
                tiles@.len() == r,
                forall|i: int| 0 <= i < r ==> (#[trigger] tiles@[i])@ == self.tiles@[i]@,
            decreases self.tiles@.len() - r,
        {
            let row = self.tiles[r].clone();
            assert(row@ =~= self.tiles@[r as int]@);
            tiles.push(row);
            r += 1;
        }
        let b = Board { tiles };
        assert(b@ =~= self@) by {
            assert forall|i: int| 0 <= i < self@.len() implies #[trigger] b@[i] == self@[i] by {
                assert(b@[i] == tiles@[i]@);
                assert(self@[i] == self.tiles@[i]@);
            }
        }
        b
    }

    /// Exchanges the labels of two cells.
    fn swap_tiles(&mut self, r1: usize, c1: usize, r2: usize, c2: usize)
        requires
            is_square(old(self)@),
            in_grid(old(self)@.len() as int, r1 as int, c1 as int),
            in_grid(old(self)@.len() as int, r2 as int, c2 as int),
        ensures
            final(self)@ == swap_cells(old(self)@, r1 as int, c1 as int, r2 as int, c2 as int),
    {
        let ghost g = self@;
        proof {
            self.lemma_rows();
        }
        assert(self.tiles@[r1 as int]@ == g[r1 as int]);
        assert(self.tiles@[r2 as int]@ == g[r2 as int]);
        let a = self.tiles[r1][c1];
        let b = self.tiles[r2][c2];
        let mut row1 = self.tiles[r1].clone();
        row1.set(c1, b);
        self.tiles.set(r1, row1);
        let ghost g1 = self@;
        assert(g1 =~= g.update(r1 as int, g[r1 as int].update(c1 as int, b)));
        proof {
            self.lemma_rows();
        }
        assert(self.tiles@[r2 as int]@ == g1[r2 as int]);
        let mut row2 = self.tiles[r2].clone();
        row2.set(c2, a);
        self.tiles.set(r2, row2);
        assert(self@ =~= g1.update(r2 as int, g1[r2 as int].update(c2 as int, a)));
    }

    /// The boards that one slide of a tile into the blank reaches: the tile
    /// left of the blank, above it, below it and right of it, as far as they
    /// exist.
    pub fn neighbors(&self) -> (r: Vec<Board>)
        requires
            self.wf(),
        ensures
            r@.map_values(|b: Board| b@) == neighbors_of(self@),
            forall|i: int| 0 <= i < r@.len() ==> (#[trigger] r@[i]).wf() && r@[i].dim() == self.dim(),
    {
        let ghost g = self@;
        let n = self.tiles.len();
        let (r, c) = self.find_zero();
        proof {
            lemma_blank(g);
        }
        let ghost left = if c > 0 {
            seq![swap_cells(g, r as int, c as int, r as int, c - 1)]
        } else {
            Seq::empty()
        };
        let ghost up = if r > 0 {
            seq![swap_cells(g, r as int, c as int, r - 1, c as int)]
        } else {
            Seq::empty()
        };
        let ghost down = if r < n - 1 {
            seq![swap_cells(g, r as int, c as int, r + 1, c as int)]
        } else {
            Seq::empty()
        };
        let mut boards: Vec<Board> = Vec::new();
        if c > 0 {
            let mut b = self.copy();
            b.swap_tiles(r, c, r, c - 1);
            proof {
                lemma_swap_valid(g, r as int, c as int, r as int, c - 1);
            }
            boards.push(b);
        }
        assert(boards@.map_values(|b: Board| b@) =~= left);
        if r > 0 {
            let mut b = self.copy();
            b.swap_tiles(r, c, r - 1, c);
            proof {
                lemma_swap_valid(g, r as int, c as int, r - 1, c as int);
            }
            boards.push(b);
        }
        assert(boards@.map_values(|b: Board| b@) =~= left + up);
        if r < n - 1 {
            let mut b = self.copy();
            b.swap_tiles(r, c, r + 1, c);
            proof {
                lemma_swap_valid(g, r as int, c as int, r + 1, c as int);
            }
            boards.push(b);
        }
        assert(boards@.map_values(|b: Board| b@) =~= left + up + down);
        if c < n - 1 {
            let mut b = self.copy();
            b.swap_tiles(r, c, r, c + 1);
            proof {
                lemma_swap_valid(g, r as int, c as int, r as int, c + 1);
            }
            boards.push(b);
        }
        assert(boards@.map_values(|b: Board| b@) =~= neighbors_of(g));
        boards
    }

    /// The board with its first two tiles in row-major order exchanged (the
    /// blank is not a tile). Exactly one of a board and its twin can be
    /// solved.
    pub fn twin(&self) -> (t: Board)
        requires
            self.wf(),
        ensures
            t@ == twin_of(self@),
            t.wf(),
            t.dim() == self.dim(),
    {
        let ghost g = self@;
        let n = self.tiles.len();
        proof {
            lemma_first_cells(n as int);
            lemma_blank(g);
            self.lemma_rows();
        }
        assert(self.tiles@[0]@ == g[0]);
        let (r1, c1) = if self.tiles[0][0] != 0 {
            (0, 0)
        } else {
            next_position(n, 0, 0)
        };
        let (ar, ac) = next_position(n, r1, c1);
        assert(self.tiles@[ar as int]@ == g[ar as int]);
        let (r2, c2) = if self.tiles[ar][ac] != 0 {
            (ar, ac)
        } else {
            next_position(n, ar, ac)
        };
        let mut t = self.copy();
        t.swap_tiles(r1, c1, r2, c2);
        proof {
            lemma_swap_valid(g, r1 as int, c1 as int, r2 as int, c2 as int);
        }
        t
    }
}

impl PartialEq for Board {
    fn eq(&self, other: &Board) -> (r: bool) {
        proof {
            self.lemma_rows();
            other.lemma_rows();
        }
        let n = self.tiles.len();
        if n != other.tiles.len() {
            return false;
        }
        let mut r: usize = 0;
        while r < n
            invariant
                0 <= r <= n,
                n == self@.len(),
                n == other@.len(),
                self@.len() == self.tiles@.len(),
                other@.len() == other.tiles@.len(),
                forall|i: int| 0 <= i < self@.len() ==> #[trigger] self@[i] == self.tiles@[i]@,
                forall|i: int| 0 <= i < other@.len() ==> #[trigger] other@[i] == other.tiles@[i]@,
                forall|i: int| 0 <= i < r ==> #[trigger] self@[i] == other@[i],
            decreases n - r,
        {
            let a = &self.tiles[r];
            let b = &other.tiles[r];
            assert(a@ == self@[r as int]);
            assert(b@ == other@[r as int]);
            if a.len() != b.len() {
                return false;
            }
            let mut c: usize = 0;
            while c < a.len()
                invariant
                    0 <= c <= a@.len(),
                    a@.len() == b@.len(),
                    0 <= r < n,
                    n == self@.len(),
                    n == other@.len(),
                    a@ == self@[r as int],
                    b@ == other@[r as int],
                    forall|j: int| 0 <= j < c ==> #[trigger] a@[j] == b@[j],
                decreases a@.len() - c,
            {
                if a[c] != b[c] {
                    return false;
                }
                c += 1;
            }
            assert(a@ =~= b@);
            r += 1;
        }
        assert(self@ =~= other@);
        true
    }
}

impl vstd::std_specs::cmp::PartialEqSpecImpl for Board {
    open spec fn obeys_eq_spec() -> bool {
        true
    }

    open spec fn eq_spec(&self, other: &Board) -> bool {
        self@ == other@
    }
}

impl Eq for Board {

}

/// The cell after `(r, c)` in row-major order of an `n`-wide grid.
fn next_position(n: usize, r: usize, c: usize) -> (p: (usize, usize))
    requires
        r < n,
        c < n,
        n >= 2,
    ensures
        (p.0 as int, p.1 as int) == next_cell(n as int, (r as int, c as int)),
{
    if c + 1 < n {
        (r, c + 1)
    } else {
        (r + 1, 0)
    }
}

} // verus!
