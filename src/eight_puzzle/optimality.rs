use vstd::prelude::*;

use super::board::{
    abs_diff, blank_of, grid_sum, in_grid, is_goal_grid, lemma_blank, lemma_goal_hamming_manhattan,
    lemma_swap_valid, manhattan_of, manhattan_term, neighbors_of, row_sum, tile_distance,
    valid_grid,
};
use super::frontier::precedes;
use super::parity::{lemma_moves_keep_class, lemma_neighbor_cell};
use super::solver::{
    SearchNode, children_of, entry_for, is_move, is_move_sequence, kept_moves, lemma_path_to, parent_board,
    path_to, Puzzle, MAX_NODES,
};

verus! {

/// `f(p) - g(p)` when cell `p` lies in row `i` before column `c`.
pub open spec fn row_delta(
    f: spec_fn(int, int) -> nat,
    g: spec_fn(int, int) -> nat,
    p: (int, int),
    i: int,
    c: int,
) -> int {
    if p.0 == i && 0 <= p.1 < c {
        f(p.0, p.1) - g(p.0, p.1)
    } else {
        0
    }
}

/// `f(p) - g(p)` when cell `p` lies in the first `r` rows of an `n`-wide grid.
pub open spec fn grid_delta(
    f: spec_fn(int, int) -> nat,
    g: spec_fn(int, int) -> nat,
    p: (int, int),
    n: int,
    r: int,
) -> int {
    if 0 <= p.0 < r && 0 <= p.1 < n {
        f(p.0, p.1) - g(p.0, p.1)
    } else {
        0
    }
}

proof fn lemma_row_two_cells(
    f: spec_fn(int, int) -> nat,
    g: spec_fn(int, int) -> nat,
    p: (int, int),
    q: (int, int),
    i: int,
    c: int,
)
    requires
        p != q,
        c >= 0,
        forall|j: int| 0 <= j < c && (i, j) != p && (i, j) != q ==> #[trigger] f(i, j) == g(i, j),
    ensures
        row_sum(f, i, c) - row_sum(g, i, c) == row_delta(f, g, p, i, c) + row_delta(f, g, q, i, c),
    decreases c,
{
    if c > 0 {
        lemma_row_two_cells(f, g, p, q, i, c - 1);
    }
}

proof fn lemma_grid_two_cells(
    f: spec_fn(int, int) -> nat,
    g: spec_fn(int, int) -> nat,
    p: (int, int),
    q: (int, int),
    n: int,
    r: int,
)
    requires
        p != q,
        n >= 0,
        r >= 0,
        forall|i: int, j: int|
            0 <= i < r && 0 <= j < n && (i, j) != p && (i, j) != q ==> #[trigger] f(i, j) == g(i, j),
    ensures
        grid_sum(f, n, r) - grid_sum(g, n, r) == grid_delta(f, g, p, n, r) + grid_delta(
            f,
            g,
            q,
            n,
            r,
        ),
    decreases r,
{
    if r > 0 {
        lemma_grid_two_cells(f, g, p, q, n, r - 1);
        lemma_row_two_cells(f, g, p, q, r - 1, n);
    }
}

/// One slide lowers the Manhattan distance by at most one.
pub proof fn lemma_manhattan_consistent(g: Seq<Seq<usize>>, k: int)
    requires
        valid_grid(g),
        0 <= k < neighbors_of(g).len(),
    ensures
        manhattan_of(g) <= manhattan_of(neighbors_of(g)[k]) + 1,
{
    let n = g.len() as int;
    lemma_blank(g);
    let b = blank_of(g);
    let t = lemma_neighbor_cell(g, k);
    let h = neighbors_of(g)[k];
    lemma_swap_valid(g, b.0, b.1, t.0, t.1);
    let f = manhattan_term(g);
    let f2 = manhattan_term(h);
    assert(h.len() == n);
    assert forall|i: int, j: int|
        0 <= i < n && 0 <= j < n && (i, j) != b && (i, j) != t implies #[trigger] f(i, j) == f2(
        i,
        j,
    ) by {
        assert(in_grid(n, i, j));
        assert(h[i][j] == g[i][j]);
    }
    lemma_grid_two_cells(f, f2, b, t, n, n);
    assert(in_grid(n, b.0, b.1) && in_grid(n, t.0, t.1));
    assert(h[t.0][t.1] == 0);
    assert(h[b.0][b.1] == g[t.0][t.1]);
    assert(f(b.0, b.1) == 0);
    assert(f2(t.0, t.1) == 0);
    let x = g[t.0][t.1] as int;
    if x != 0 {
        let gr = (x - 1) / n;
        let gc = (x - 1) % n;
        assert(f(t.0, t.1) == abs_diff(t.0, gr) + abs_diff(t.1, gc));
        assert(f2(b.0, b.1) == abs_diff(b.0, gr) + abs_diff(b.1, gc));
    }
}

/// Along moves that end at the goal, the Manhattan distance of a board is
/// at most the number of moves still to make.
pub proof fn lemma_manhattan_admissible(path: Seq<Seq<Seq<usize>>>, k: int)
    requires
        path.len() >= 1,
        valid_grid(path[0]),
        forall|i: int| 0 < i < path.len() ==> neighbors_of(#[trigger] path[i - 1]).contains(path[i]),
        is_goal_grid(path.last()),
        0 <= k < path.len(),
    ensures
        manhattan_of(path[k]) <= path.len() - 1 - k,
    decreases path.len() - k,
{
    lemma_moves_keep_class(path, k);
    if k == path.len() - 1 {
        lemma_goal_hamming_manhattan(path[k]);
    } else {
        lemma_manhattan_admissible(path, k + 1);
        assert(neighbors_of(path[(k + 1) - 1]).contains(path[k + 1]));
        assert(path[(k + 1) - 1] == path[k]);
        let moves = neighbors_of(path[k]);
        let j = choose|j: int| 0 <= j < moves.len() && #[trigger] moves[j] == path[k + 1];
        lemma_manhattan_consistent(path[k], j);
    }
}

/// Boards joined by moves, none undoing the move before it.
pub open spec fn no_backtrack(path: Seq<Seq<Seq<usize>>>) -> bool {
    forall|i: int| 0 < i < path.len() - 1 ==> #[trigger] path[i + 1] != path[i - 1]
}

/// Every move path between two boards can be shortened, or kept, to one
/// that never undoes its last move.
pub proof fn lemma_drop_backtracks(path: Seq<Seq<Seq<usize>>>) -> (q: Seq<Seq<Seq<usize>>>)
    requires
        path.len() >= 1,
        forall|i: int| 0 < i < path.len() ==> neighbors_of(#[trigger] path[i - 1]).contains(path[i]),
    ensures
        q.len() >= 1,
        q.len() <= path.len(),
        q[0] == path[0],
        q.last() == path.last(),
        forall|i: int| 0 < i < q.len() ==> neighbors_of(#[trigger] q[i - 1]).contains(q[i]),
        no_backtrack(q),
    decreases path.len(),
{
    if no_backtrack(path) {
        path
    } else {
        let i = choose|i: int| 0 < i < path.len() - 1 && #[trigger] path[i + 1] == path[i - 1];
        let shorter = path.take(i) + path.skip(i + 2);
        assert(shorter.len() == path.len() - 2);
        assert forall|j: int| 0 < j < shorter.len() implies neighbors_of(
            #[trigger] shorter[j - 1],
        ).contains(shorter[j]) by {
            if j < i {
                assert(shorter[j - 1] == path[j - 1] && shorter[j] == path[j]);
            } else if j == i {
                assert(shorter[j - 1] == path[i - 1] && shorter[j] == path[i + 2]);
                assert(neighbors_of(path[(i + 2) - 1]).contains(path[i + 2]));
            } else {
                assert(shorter[j - 1] == path[j + 1] && shorter[j] == path[j + 2]);
                assert(neighbors_of(path[(j + 2) - 1]).contains(path[j + 2]));
            }
        }
        assert(shorter[0] == path[0]);
        if i + 2 < path.len() {
            assert(shorter.last() == path.last());
        } else {
            assert(shorter.last() == path[i - 1]);
        }
        lemma_drop_backtracks(shorter)
    }
}

/// No move path from `start` to the goal is shorter than `path`.
pub open spec fn no_shorter(path: Seq<Seq<Seq<usize>>>, start: Seq<Seq<usize>>) -> bool {
    forall|q: Seq<Seq<Seq<usize>>>|
        q.len() >= 1 && q[0] == start && is_goal_grid(q.last()) && #[trigger] is_move_sequence(q)
            ==> path.len() <= q.len()
}

/// The nodes of a search that were expanded, `ex`, and those still in its
/// frontier cover the tree: every node is one or the other, and an expanded
/// node is no goal and has a child for each of its children boards.
pub(crate) open spec fn cover_ok(p: Puzzle, ex: Set<int>, kid: spec_fn(int, int) -> int) -> bool {
    let nodes = p.nodes@;
    &&& forall|h: int|
        0 <= h < nodes.len() ==> #[trigger] ex.contains(h) || exists|k: int|
            0 <= k < p.frontier@.len() && p.frontier@[k].handle == h
    &&& forall|h: int| #[trigger] ex.contains(h) ==> 0 <= h < nodes.len() && !is_goal_grid(nodes[h].board@)
    &&& forall|h: int, j: int|
        ex.contains(h) && 0 <= j < children_of(nodes, h).len() ==> {
            let c = #[trigger] kid(h, j);
            &&& 0 <= c < nodes.len()
            &&& nodes[c].parent == Some(h as usize)
            &&& nodes[c].board@ == children_of(nodes, h)[j]
        }
}

proof fn lemma_kept_contains(moves: Seq<Seq<Seq<usize>>>, back: Option<Seq<Seq<usize>>>, x: Seq<Seq<usize>>)
    requires
        moves.contains(x),
        back != Some(x),
    ensures
        kept_moves(moves, back).contains(x),
    decreases moves.len(),
{
    let rest = kept_moves(moves.drop_last(), back);
    if moves.last() == x {
        assert(kept_moves(moves, back) == rest.push(x));
        assert(rest.push(x)[rest.len() as int] == x);
    } else {
        let k = choose|k: int| 0 <= k < moves.len() && moves[k] == x;
        assert(moves.drop_last()[k] == x);
        lemma_kept_contains(moves.drop_last(), back, x);
        let j = choose|j: int| 0 <= j < rest.len() && rest[j] == x;
        if back == Some(moves.last()) {
        } else {
            assert(rest.push(moves.last())[j] == x);
        }
    }
}

/// What expanding the non-goal entry at index `i` does, spelled out.
proof fn lemma_step_facts(old: Puzzle, new: Puzzle, i: int)
    requires
        old.wf(),
        new.wf(),
        0 <= i < old.frontier@.len(),
        old.expands(new, old.frontier@[i], i, None),
    ensures
        ({
            let h = old.frontier@[i].handle as int;
            let old_len = old.nodes@.len();
            let children = children_of(old.nodes@, h);
            &&& 0 <= h < old_len
            &&& !is_goal_grid(old.nodes@[h].board@)
            &&& new.nodes@.len() == old_len + children.len()
            &&& forall|x: int| 0 <= x < old_len ==> #[trigger] new.nodes@[x] == old.nodes@[x]
            &&& forall|j: int|
                0 <= j < children.len() ==> {
                    let node = #[trigger] new.nodes@[old_len + j];
                    &&& node.board@ == children[j]
                    &&& node.parent == Some(h as usize)
                }
            &&& new.frontier@ == old.frontier@.remove(i) + Seq::new(
                children.len(),
                |j: int| entry_for(new.nodes@, old_len + j),
            )
        }),
{
    let old_len = old.nodes@.len();
    assert forall|x: int| 0 <= x < old_len implies #[trigger] new.nodes@[x] == old.nodes@[x] by {
        assert(new.nodes@.subrange(0, old_len as int)[x] == new.nodes@[x]);
    }
}

proof fn lemma_cover_front(old: Puzzle, new: Puzzle, ex: Set<int>, kid: spec_fn(int, int) -> int, i: int)
    requires
        old.wf(),
        new.wf(),
        cover_ok(old, ex, kid),
        0 <= i < old.frontier@.len(),
        old.expands(new, old.frontier@[i], i, None),
    ensures
        forall|x: int|
            0 <= x < new.nodes@.len() ==> #[trigger] ex.insert(old.frontier@[i].handle as int).contains(x)
                || exists|k: int| 0 <= k < new.frontier@.len() && new.frontier@[k].handle == x,
{
    lemma_step_facts(old, new, i);
    let h = old.frontier@[i].handle as int;
    let ex2 = ex.insert(h);
    let old_len = old.nodes@.len();
    let front2 = old.frontier@.remove(i);
    assert forall|x: int| 0 <= x < new.nodes@.len() implies #[trigger] ex2.contains(x) || exists|k: int|
        0 <= k < new.frontier@.len() && new.frontier@[k].handle == x by {
        if x < old_len {
            if !ex2.contains(x) {
                assert(!ex.contains(x));
                let k = choose|k: int| 0 <= k < old.frontier@.len() && old.frontier@[k].handle == x;
                let k2 = if k < i {
                    k
                } else {
                    k - 1
                };
                assert(front2[k2] == old.frontier@[k]);
                assert(new.frontier@[k2] == front2[k2]);
            }
        } else {
            let j = x - old_len;
            let k2 = front2.len() + j;
            assert(new.frontier@[k2] == entry_for(new.nodes@, old_len + j));
        }
    }
}

/// Expanding a non-goal entry keeps the cover, with its node now expanded
/// and its children the nodes just added.
pub(crate) proof fn lemma_cover_step(
    old: Puzzle,
    new: Puzzle,
    ex: Set<int>,
    kid: spec_fn(int, int) -> int,
    i: int,
)
    requires
        old.wf(),
        new.wf(),
        cover_ok(old, ex, kid),
        0 <= i < old.frontier@.len(),
        old.expands(new, old.frontier@[i], i, None),
    ensures
        cover_ok(
            new,
            ex.insert(old.frontier@[i].handle as int),
            |h2: int, j: int|
                if h2 == old.frontier@[i].handle as int {
                    old.nodes@.len() + j
                } else {
                    kid(h2, j)
                },
        ),
{
    lemma_cover_front(old, new, ex, kid, i);
    lemma_step_facts(old, new, i);
    let h = old.frontier@[i].handle as int;
    let ex2 = ex.insert(h);
    let on = old.nodes@;
    let nn = new.nodes@;
    let old_len = on.len();
    let kid2 = |h2: int, j: int|
        if h2 == h {
            old_len + j
        } else {
            kid(h2, j)
        };
    assert forall|x: int| #[trigger] ex2.contains(x) implies 0 <= x < nn.len() && !is_goal_grid(
        nn[x].board@,
    ) by {
        if x != h {
            assert(ex.contains(x));
        }
        assert(nn[x] == on[x]);
    }
    assert forall|x: int, j: int|
        ex2.contains(x) && 0 <= j < children_of(nn, x).len() implies {
        let c = #[trigger] kid2(x, j);
        &&& 0 <= c < nn.len()
        &&& nn[c].parent == Some(x as usize)
        &&& nn[c].board@ == children_of(nn, x)[j]
    } by {
        if x != h {
            assert(ex.contains(x));
        }
        assert(nn[x] == on[x]);
        if x > 0 {
            let p = on[x].parent->Some_0 as int;
            assert(nn[p] == on[p]);
        }
        assert(children_of(nn, x) == children_of(on, x));
        if x == h {
            assert(nn[old_len + j].board@ == children_of(on, h)[j]);
        } else {
            let c = kid(x, j);
            assert(nn[c] == on[c]);
        }
    }
}

/// Along a path from the start that never undoes a move and ends at the
/// goal, some prefix of it is the path of a node in the frontier.
#[verifier::rlimit(60)]
proof fn lemma_find_frontier(pz: Puzzle, ex: Set<int>, kid: spec_fn(int, int) -> int, path: Seq<Seq<Seq<usize>>>, m: int, c: int) -> (k: int)
    requires
        pz.wf(),
        cover_ok(pz, ex, kid),
        is_move_sequence(path),
        no_backtrack(path),
        is_goal_grid(path.last()),
        0 <= m < path.len(),
        0 <= c < pz.nodes@.len(),
        path_to(pz.nodes@, c) == path.take(m + 1),
    ensures
        0 <= k < pz.frontier@.len(),
        pz.nodes@[pz.frontier@[k].handle as int].depth < path.len(),
        pz.nodes@[pz.frontier@[k].handle as int].board@ == path[
            pz.nodes@[pz.frontier@[k].handle as int].depth as int
        ],
    decreases path.len() - m,
{
    let nodes = pz.nodes@;
    let n = nodes[0].board.dim();
    lemma_path_to(nodes, n, c);
    assert(nodes[c].depth == m);
    assert(nodes[c].board@ == path.take(m + 1).last());
    if !ex.contains(c) {
        let k = choose|k: int| 0 <= k < pz.frontier@.len() && pz.frontier@[k].handle == c;
        k
    } else {
        assert(!is_goal_grid(nodes[c].board@));
        assert(m < path.len() - 1);
        let next = path[m + 1];
        assert(is_move(path[(m + 1) - 1], path[m + 1]));
        let back = parent_board(nodes, c);
        if c == 0 {
            assert(back is None);
        } else {
            let p = nodes[c].parent->Some_0 as int;
            assert(path_to(nodes, c) == path_to(nodes, p).push(nodes[c].board@));
            lemma_path_to(nodes, n, p);
            assert(path_to(nodes, p) =~= path.take(m));
            assert(m >= 1);
            assert(nodes[p].board@ == path[m - 1]);
            assert(path[m + 1] != path[m - 1]);
        }
        lemma_kept_contains(neighbors_of(nodes[c].board@), back, next);
        let children = children_of(nodes, c);
        let j = choose|j: int| 0 <= j < children.len() && children[j] == next;
        let c2 = kid(c, j);
        assert(c2 >= 1);
        assert(path_to(nodes, c2) == path_to(nodes, c).push(next));
        assert(path_to(nodes, c2) =~= path.take(m + 2));
        lemma_find_frontier(pz, ex, kid, path, m + 1, c2)
    }
}

/// When the entry taken out of the frontier is a goal, the path to it is
/// no longer than any move path from the start to the goal.
pub(crate) proof fn lemma_goal_is_nearest(pz: Puzzle, ex: Set<int>, kid: spec_fn(int, int) -> int, i: int)
    requires
        pz.wf(),
        cover_ok(pz, ex, kid),
        pz.nodes@.len() <= MAX_NODES,
        0 <= i < pz.frontier@.len(),
        forall|j: int| 0 <= j < pz.frontier@.len() ==> precedes(pz.frontier@[i], #[trigger] pz.frontier@[j]),
        is_goal_grid(pz.nodes@[pz.frontier@[i].handle as int].board@),
    ensures
        no_shorter(path_to(pz.nodes@, pz.frontier@[i].handle as int), pz.start()),
{
    let nodes = pz.nodes@;
    let n = nodes[0].board.dim();
    let e = pz.frontier@[i];
    let h = e.handle as int;
    lemma_path_to(nodes, n, h);
    lemma_goal_hamming_manhattan(nodes[h].board@);
    assert(e.priority == nodes[h].depth);
    assert forall|q: Seq<Seq<Seq<usize>>>|
        q.len() >= 1 && q[0] == pz.start() && is_goal_grid(q.last()) && #[trigger] is_move_sequence(q)
        implies path_to(nodes, h).len() <= q.len() by {
        if q.len() < MAX_NODES {
            assert forall|x: int| 0 < x < q.len() implies neighbors_of(#[trigger] q[x - 1]).contains(q[x]) by {
                assert(is_move(q[x - 1], q[x]));
            }
            let path = lemma_drop_backtracks(q);
            assert forall|x: int| 0 < x < path.len() implies is_move(#[trigger] path[x - 1], path[x]) by {}
            assert(path_to(nodes, 0) =~= path.take(1));
            let k = lemma_find_frontier(pz, ex, kid, path, 0, 0);
            let x = pz.frontier@[k];
            let d = nodes[x.handle as int].depth as int;
            lemma_manhattan_admissible(path, d);
            assert(precedes(e, x));
        }
    }
}

} // verus!
