use vstd::prelude::*;

use super::board::{
    is_goal_grid, lemma_first_neighbors_differ, manhattan_of, neighbors_of, twin_of, valid_grid, Board,
};
use super::optimality::{
    cover_ok, lemma_cover_step, lemma_goal_is_nearest, lemma_manhattan_admissible, no_shorter,
};
use super::parity::{
    goal_class, lemma_goal_class, lemma_moves_keep_class, lemma_twin_flips_class, parity_class,
};
use super::frontier::{precedes, Entry, Frontier};

verus! {

/// A search never holds more nodes than this: with its board a node takes
/// at least 128 bytes, so no memory could hold more.
pub const MAX_NODES: usize = usize::MAX / 128;

/// A node of a search tree: a board, the handle of the node it was reached
/// from (none for the root), and its number of moves from the root.
pub struct SearchNode {
    pub board: Board,
    pub parent: Option<usize>,
    pub depth: usize,
}

/// `b` is one slide away from `a`.
pub open spec fn is_move(a: Seq<Seq<usize>>, b: Seq<Seq<usize>>) -> bool {
    neighbors_of(a).contains(b)
}

/// The board of the parent of node `h`, if it has one.
pub open spec fn parent_board(nodes: Seq<SearchNode>, h: int) -> Option<Seq<Seq<usize>>> {
    match nodes[h].parent {
        Some(p) => Some(nodes[p as int].board@),
        None => None,
    }
}

/// The boards of `moves` other than `back`, in order.
pub open spec fn kept_moves(moves: Seq<Seq<Seq<usize>>>, back: Option<Seq<Seq<usize>>>) -> Seq<
    Seq<Seq<usize>>,
>
    decreases moves.len(),
{
    if moves.len() == 0 {
        Seq::empty()
    } else {
        let rest = kept_moves(moves.drop_last(), back);
        if back == Some(moves.last()) {
            rest
        } else {
            rest.push(moves.last())
        }
    }
}

/// The boards that expanding node `h` adds: its neighbors, but for the
/// board of its parent, as stepping back undoes the last move.
pub open spec fn children_of(nodes: Seq<SearchNode>, h: int) -> Seq<Seq<Seq<usize>>> {
    kept_moves(neighbors_of(nodes[h].board@), parent_board(nodes, h))
}

/// The frontier entry of node `h`: cost so far plus Manhattan distance.
pub open spec fn entry_for(nodes: Seq<SearchNode>, h: int) -> Entry {
    Entry {
        handle: h as usize,
        priority: (nodes[h].depth + manhattan_of(nodes[h].board@)) as usize,
        depth: nodes[h].depth,
    }
}

/// Nodes that form a search tree rooted at node 0 over valid boards of
/// dimension `n`: each other node has an earlier parent, one move away and
/// one level up.
pub open spec fn tree_wf(nodes: Seq<SearchNode>, n: nat) -> bool {
    &&& 1 <= nodes.len() <= MAX_NODES
    &&& nodes[0].parent is None
    &&& nodes[0].depth == 0
    &&& forall|i: int|
        0 <= i < nodes.len() ==> (#[trigger] nodes[i]).board.wf() && nodes[i].board.dim() == n
            && nodes[i].depth <= i
    &&& forall|i: int|
        1 <= i < nodes.len() ==> match (#[trigger] nodes[i]).parent {
            Some(p) => p < i && nodes[i].depth == nodes[p as int].depth + 1 && is_move(
                nodes[p as int].board@,
                nodes[i].board@,
            ),
            None => false,
        }
}

/// The boards from the root down to node `h`.
pub open spec fn path_to(nodes: Seq<SearchNode>, h: int) -> Seq<Seq<Seq<usize>>>
    decreases h,
{
    match nodes[h].parent {
        Some(p) => if 0 <= p < h {
            path_to(nodes, p as int).push(nodes[h].board@)
        } else {
            seq![nodes[h].board@]
        },
        None => seq![nodes[h].board@],
    }
}

/// A sequence of boards in which each is one move from the one before.
pub open spec fn is_move_sequence(path: Seq<Seq<Seq<usize>>>) -> bool {
    forall|i: int| 0 < i < path.len() ==> is_move(#[trigger] path[i - 1], path[i])
}

/// The path to a node starts at the root, ends at the node, makes a move
/// at each step, and is one longer than the node is deep.
pub proof fn lemma_path_to(nodes: Seq<SearchNode>, n: nat, h: int)
    requires
        tree_wf(nodes, n),
        0 <= h < nodes.len(),
    ensures
        path_to(nodes, h).len() == nodes[h].depth + 1,
        path_to(nodes, h)[0] == nodes[0].board@,
        path_to(nodes, h).last() == nodes[h].board@,
        is_move_sequence(path_to(nodes, h)),
    decreases h,
{
    let node = nodes[h];
    if h == 0 {
    } else {
        let p = node.parent->Some_0 as int;
        lemma_path_to(nodes, n, p);
        let prev = path_to(nodes, p);
        let path = path_to(nodes, h);
        assert(path == prev.push(node.board@));
        assert forall|i: int| 0 < i < path.len() implies is_move(#[trigger] path[i - 1], path[i]) by {
            if i < path.len() - 1 {
                assert(path[i - 1] == prev[i - 1]);
                assert(path[i] == prev[i]);
            }
        }
    }
}

/// One A* search over the boards reachable from a start board.
pub(crate) struct Puzzle {
    pub(crate) nodes: Vec<SearchNode>,
    pub(crate) solution: Vec<Board>,
    pub(crate) frontier: Frontier,
}

impl Puzzle {
    /// The nodes form a search tree, and each frontier entry names a node
    /// with its depth and its priority.
    pub(crate) open spec fn wf(&self) -> bool {
        &&& tree_wf(self.nodes@, self.nodes@[0].board.dim())
        &&& forall|k: int|
            0 <= k < self.frontier@.len() ==> (#[trigger] self.frontier@[k]).handle
                < self.nodes@.len() && self.frontier@[k] == entry_for(
                self.nodes@,
                self.frontier@[k].handle as int,
            )
    }

    pub(crate) open spec fn start(&self) -> Seq<Seq<usize>> {
        self.nodes@[0].board@
    }

    fn new(initial: Board) -> (p: Puzzle)
        requires
            initial.wf(),
        ensures
            p.wf(),
            p.start() == initial@,
            p.nodes@.len() == 1,
            p.frontier@.len() == 1,
            p.solution@.len() == 0,
    {
        let priority = initial.manhattan();
        let mut nodes: Vec<SearchNode> = Vec::new();
        nodes.push(SearchNode { board: initial, parent: None, depth: 0 });
        let mut frontier = Frontier::new();
        frontier.push(Entry { handle: 0, priority, depth: 0 });
        let p = Puzzle { nodes, solution: Vec::new(), frontier };
        assert(p.frontier@[0] == entry_for(p.nodes@, 0));
        p
    }

    /// Whether `nb` is the board of node `parent`.
    fn is_parent(&self, parent: Option<usize>, nb: &Board) -> (r: bool)
        requires
            parent matches Some(p) ==> p < self.nodes@.len(),
        ensures
            r == (parent matches Some(p) && self.nodes@[p as int].board@ == nb@),
    {
        match parent {
            Some(p) => self.nodes[p].board == *nb,
            None => false,
        }
    }

    /// Adds node `nb`, reached from node `h`, and its frontier entry.
    fn add_child(&mut self, nb: Board, h: usize, depth: usize)
        requires
            old(self).wf(),
            h < old(self).nodes@.len(),
            old(self).nodes@.len() < MAX_NODES,
            nb.wf(),
            nb.dim() == old(self).nodes@[0].board.dim(),
            is_move(old(self).nodes@[h as int].board@, nb@),
            depth == old(self).nodes@[h as int].depth + 1,
        ensures
            final(self).wf(),
            final(self).nodes@ == old(self).nodes@.push(
                (SearchNode { board: nb, parent: Some(h), depth }),
            ),
            final(self).frontier@ == old(self).frontier@.push(
                entry_for(final(self).nodes@, old(self).nodes@.len() as int),
            ),
            final(self).solution@ == old(self).solution@,
    {
        let ghost before = self.nodes@;
        let ghost n = self.nodes@[0].board.dim();
        assert(before[h as int].depth <= h);
        let index = self.nodes.len();
        let priority = nb.manhattan() + depth;
        self.nodes.push(SearchNode { board: nb, parent: Some(h), depth });
        self.frontier.push(Entry { handle: index, priority, depth });
        proof {
            let nodes = self.nodes@;
            assert forall|j: int| 0 <= j < nodes.len() implies {
                &&& (#[trigger] nodes[j]).board.wf()
                &&& nodes[j].board.dim() == n
                &&& nodes[j].depth <= j
            } by {
                if j < before.len() {
                    assert(nodes[j] == before[j]);
                }
            }
            assert forall|j: int| 1 <= j < nodes.len() implies match (#[trigger] nodes[j]).parent {
                Some(p) => p < j && nodes[j].depth == nodes[p as int].depth + 1 && is_move(
                    nodes[p as int].board@,
                    nodes[j].board@,
                ),
                None => false,
            } by {
                if j < before.len() {
                    assert(nodes[j] == before[j]);
                    let p = before[j].parent->Some_0 as int;
                    assert(nodes[p] == before[p]);
                } else {
                    assert(nodes[h as int] == before[h as int]);
                }
            }
            assert(tree_wf(nodes, n));
            assert forall|k: int| 0 <= k < self.frontier@.len() implies (
            #[trigger] self.frontier@[k]).handle < nodes.len() && self.frontier@[k] == entry_for(
                nodes,
                self.frontier@[k].handle as int,
            ) by {
                if k < self.frontier@.len() - 1 {
                    let hh = self.frontier@[k].handle as int;
                    assert(old(self).frontier@[k] == self.frontier@[k]);
                    assert(nodes[hh] == before[hh]);
                }
            }
        }
    }

    /// Expands the entry that precedes all others in the frontier. Returns
    /// it if its board is the goal; otherwise adds a node and an entry for
    /// each of its children and returns `None`. With the frontier empty it
    /// changes nothing and returns `None`.
    #[verifier::spinoff_prover]
    #[verifier::rlimit(100)]
    fn step(&mut self) -> (r: Option<Entry>)
        requires
            old(self).wf(),
            old(self).nodes@.len() + 4 <= MAX_NODES,
        ensures
            final(self).wf(),
            final(self).start() == old(self).start(),
            final(self).solution@ == old(self).solution@,
            old(self).frontier@.len() == 0 ==> r is None && final(self).nodes@ == old(
                self,
            ).nodes@ && final(self).frontier@ == old(self).frontier@,
            old(self).frontier@.len() > 0 ==> exists|i: int|
                {
                    &&& 0 <= i < old(self).frontier@.len()
                    &&& forall|j: int|
                        0 <= j < old(self).frontier@.len() ==> precedes(
                            old(self).frontier@[i],
                            #[trigger] old(self).frontier@[j],
                        )
                    &&& old(self).expands(*final(self), old(self).frontier@[i], i, r)
                },
    {
        let ghost old_nodes = self.nodes@;
        let ghost old_front = self.frontier@;
        let ghost n = self.nodes@[0].board.dim();
        let e = match self.frontier.pop() {
            Some(e) => e,
            None => {
                return None;
            },
        };
        let ghost i = choose|i: int|
            0 <= i < old_front.len() && old_front[i] == e && self.frontier@ == old_front.remove(i);
        let ghost popped = self.frontier@;
        assert forall|k: int| 0 <= k < popped.len() implies #[trigger] popped[k] == old_front[if k
            < i {
            k
        } else {
            k + 1
        }] by {}
        let h = e.handle;
        assert(e == entry_for(old_nodes, h as int));
        if self.nodes[h].board.is_goal() {
            assert(old(self).expands(*self, old_front[i], i, Some(e)));
            return Some(e);
        }
        assert(self.nodes@[h as int].depth <= h);
        let depth = e.depth + 1;
        let parent = self.nodes[h].parent;
        let nbrs = self.nodes[h].board.neighbors();
        let ghost moves = nbrs@.map_values(|b: Board| b@);
        let ghost back = parent_board(old_nodes, h as int);
        proof {
            lemma_first_neighbors_differ(old_nodes[h as int].board@);
            if h > 0 {
                assert(old_nodes[h as int].parent is Some);
            }
        }
        let old_len = self.nodes.len();
        let mut k: usize = 0;
        while k < nbrs.len()
            invariant
                self.wf(),
                n == self.nodes@[0].board.dim(),
                moves == nbrs@.map_values(|b: Board| b@),
                moves == neighbors_of(old_nodes[h as int].board@),
                moves.len() >= 2,
                moves[0] != moves[1],
                forall|j: int| 0 <= j < nbrs@.len() ==> (#[trigger] nbrs@[j]).wf() && nbrs@[j].dim() == n,
                0 <= k <= nbrs@.len(),
                nbrs@.len() <= 4,
                old_len == old_nodes.len(),
                h < old_len,
                old_nodes[h as int].parent == parent,
                parent matches Some(p) ==> p < h,
                back == parent_board(old_nodes, h as int),
                depth == old_nodes[h as int].depth + 1,
                depth <= old_len,
                old_len + 4 <= MAX_NODES,
                self.nodes@.len() == old_len + kept_moves(moves.take(k as int), back).len(),
                self.nodes@.len() <= old_len + k,
                k >= 2 ==> self.nodes@.len() > old_len,
                self.nodes@.subrange(0, old_len as int) == old_nodes,
                forall|j: int|
                    0 <= j < self.nodes@.len() - old_len ==> {
                        let node = #[trigger] self.nodes@[old_len + j];
                        &&& node.board@ == kept_moves(moves.take(k as int), back)[j]
                        &&& node.parent == Some(h)
                        &&& node.depth == depth
                    },
                self.frontier@ == popped + Seq::new(
                    (self.nodes@.len() - old_len) as nat,
                    |j: int| entry_for(self.nodes@, old_len + j),
                ),
                self.solution@ == old(self).solution@,
            decreases nbrs@.len() - k,
        {
            let ghost before = self.nodes@;
            let ghost kept = kept_moves(moves.take(k as int), back);
            assert(moves.take(k + 1).drop_last() =~= moves.take(k as int));
            assert(moves.take(k + 1).last() == moves[k as int]);
            assert(moves[k as int] == nbrs@[k as int]@);
            if !self.is_parent(parent, &nbrs[k]) {
                let nb = nbrs[k].copy();
                proof {
                    assert(moves[k as int] == nb@);
                    assert(is_move(self.nodes@[h as int].board@, nb@)) by {
                        assert(before[h as int] == old_nodes[h as int]);
                    }
                }
                self.add_child(nb, h, depth);
                proof {
                    let nodes = self.nodes@;
                    assert(kept_moves(moves.take(k + 1), back) == kept.push(moves[k as int]));
                    assert(nodes.subrange(0, old_len as int) =~= old_nodes) by {
                        assert forall|j: int| 0 <= j < old_len implies nodes[j] == old_nodes[j] by {
                            assert(before.subrange(0, old_len as int)[j] == before[j]);
                        }
                    }
                    let added = (nodes.len() - old_len) as nat;
                    let entries = Seq::new(added, |j: int| entry_for(nodes, old_len + j));
                    let prev = Seq::new(
                        (before.len() - old_len) as nat,
                        |j: int| entry_for(before, old_len + j),
                    );
                    assert forall|j: int| 0 <= j < prev.len() implies prev[j] == entries[j] by {
                        assert(nodes[old_len + j] == before[old_len + j]);
                    }
                    assert(self.frontier@ =~= popped + entries);
                    assert forall|j: int| 0 <= j < nodes.len() - old_len implies {
                        let node = #[trigger] nodes[old_len + j];
                        &&& node.board@ == kept_moves(moves.take(k + 1), back)[j]
                        &&& node.parent == Some(h)
                        &&& node.depth == depth
                    } by {
                        if j < before.len() - old_len {
                            assert(nodes[old_len + j] == before[old_len + j]);
                        }
                    }
                }
            } else {
                proof {
                    assert(kept_moves(moves.take(k + 1), back) == kept);
                }
            }
            k += 1;
        }
        assert(moves.take(nbrs@.len() as int) =~= moves);
        assert(self.nodes@.len() > old_len);
        assert(self.nodes@.subrange(0, old_len as int) == old_nodes);
        assert(children_of(old_nodes, h as int) == kept_moves(moves, back));
        assert(old(self).expands(*self, old_front[i], i, None));
        None
    }

    /// The search expanded entry `e`, at index `i` of the frontier, going
    /// from `self` to `next` and returning `r`.
    pub(crate) open spec fn expands(&self, next: Puzzle, e: Entry, i: int, r: Option<Entry>) -> bool {
        let h = e.handle as int;
        let old_len = self.nodes@.len();
        let children = children_of(self.nodes@, h);
        if is_goal_grid(self.nodes@[h].board@) {
            &&& r == Some(e)
            &&& next.nodes@ == self.nodes@
            &&& next.frontier@ == self.frontier@.remove(i)
        } else {
            &&& r is None
            &&& next.nodes@.len() == old_len + children.len()
            &&& next.nodes@.len() > old_len
            &&& next.nodes@.subrange(0, old_len as int) == self.nodes@
            &&& forall|j: int|
                0 <= j < children.len() ==> {
                    let node = #[trigger] next.nodes@[old_len + j];
                    &&& node.board@ == children[j]
                    &&& node.parent == Some(e.handle)
                    &&& node.depth == e.depth + 1
                }
            &&& next.frontier@ == self.frontier@.remove(i) + Seq::new(
                children.len(),
                |j: int| entry_for(next.nodes@, old_len + j),
            )
        }
    }
    /// Appends to `out` the boards from the root down to node `h`.
    fn collect_path(&self, h: usize, out: &mut Vec<Board>)
        requires
            tree_wf(self.nodes@, self.nodes@[0].board.dim()),
            h < self.nodes@.len(),
        ensures
            final(out)@.map_values(|b: Board| b@) == old(out)@.map_values(|b: Board| b@) + path_to(
                self.nodes@,
                h as int,
            ),
            final(out)@.len() == old(out)@.len() + path_to(self.nodes@, h as int).len(),
        decreases h,
    {
        let ghost start = out@;
        match self.nodes[h].parent {
            Some(p) => {
                assert(h > 0);
                self.collect_path(p, out);
            },
            None => {},
        }
        let ghost mid = out@;
        out.push(self.nodes[h].board.copy());
        assert(out@.map_values(|b: Board| b@) =~= mid.map_values(|b: Board| b@).push(
            self.nodes@[h as int].board@,
        ));
        assert(out@.map_values(|b: Board| b@) =~= start.map_values(|b: Board| b@) + path_to(
            self.nodes@,
            h as int,
        ));
    }

    /// Records the boards from the start down to node `end` as the solution.
    fn build_solution(&mut self, end: usize)
        requires
            old(self).wf(),
            end < old(self).nodes@.len(),
            old(self).solution@.len() == 0,
        ensures
            final(self).nodes@ == old(self).nodes@,
            final(self).frontier@ == old(self).frontier@,
            final(self).solution@.map_values(|b: Board| b@) == path_to(
                old(self).nodes@,
                end as int,
            ),
    {
        let mut solution: Vec<Board> = Vec::new();
        self.collect_path(end, &mut solution);
        assert(Seq::<Board>::empty().map_values(|b: Board| b@) =~= Seq::empty());
        assert(path_to(self.nodes@, end as int) =~= Seq::empty() + path_to(self.nodes@, end as int));
        self.solution = solution;
    }
}

/// Some sequence of moves leads from `g` to the goal board.
pub open spec fn reaches_goal(g: Seq<Seq<usize>>) -> bool {
    exists|path: Seq<Seq<Seq<usize>>>|
        path.len() >= 1 && path[0] == g && is_goal_grid(path.last()) && is_move_sequence(path)
}

/// Solves a board by A* search, run in lockstep on the board and on its
/// twin: exactly one of the two can reach the goal.
pub struct Solver {
    puzzle: Puzzle,
    twin_puzzle: Puzzle,
    twin_solved: bool,
    ran_out: bool,
}

impl Solver {
    /// The board the solver started from.
    pub closed spec fn initial(&self) -> Seq<Seq<usize>> {
        self.puzzle.start()
    }

    /// The boards of the solution found, from the initial board to the
    /// goal; empty when none was found.
    pub closed spec fn path(&self) -> Seq<Seq<Seq<usize>>> {
        self.puzzle.solution@.map_values(|b: Board| b@)
    }

    /// The search on the twin reached the goal first.
    pub closed spec fn twin_solved(&self) -> bool {
        self.twin_solved
    }

    /// A search stopped at `MAX_NODES` nodes before either reached the goal.
    pub closed spec fn exhausted(&self) -> bool {
        self.ran_out
    }

    /// The larger number of nodes that the two searches hold.
    pub closed spec fn explored(&self) -> nat {
        if self.puzzle.nodes@.len() >= self.twin_puzzle.nodes@.len() {
            self.puzzle.nodes@.len()
        } else {
            self.twin_puzzle.nodes@.len()
        }
    }

    pub open spec fn solvable(&self) -> bool {
        self.path().len() > 0
    }

    /// A found solution leads by moves from the initial board to the goal
    /// and fits in an `isize`; without one, the twin reached the goal or the
    /// search was exhausted.
    pub closed spec fn wf(&self) -> bool {
        &&& valid_grid(self.initial())
        &&& self.path().len() <= MAX_NODES
        &&& self.solvable() ==> {
            &&& self.path()[0] == self.initial()
            &&& is_goal_grid(self.path().last())
            &&& is_move_sequence(self.path())
        }
        &&& self.twin_solved() ==> reaches_goal(twin_of(self.initial()))
        &&& self.solvable() || self.twin_solved() || self.exhausted()
        &&& !(self.solvable() && self.twin_solved())
        &&& !(self.solvable() && self.exhausted())
        &&& !(self.twin_solved() && self.exhausted())
        &&& self.exhausted() ==> self.explored() + 4 > MAX_NODES
        &&& !self.exhausted() ==> (self.solvable() <==> reaches_goal(self.initial()))
        &&& self.solvable() ==> no_shorter(self.path(), self.initial())
    }

    /// Searches for a shortest solution of `initial`, stepping the search
    /// on the board and the search on its twin by turns until one of them
    /// reaches the goal.
    pub fn new(initial: Board) -> (s: Solver)
        requires
            initial.wf(),
        ensures
            s.wf(),
            s.initial() == initial@,
            s.solvable() ==> s.path()[0] == initial@ && is_goal_grid(s.path().last())
                && is_move_sequence(s.path()),
            !s.solvable() ==> s.path().len() == 0,
            s.twin_solved() ==> reaches_goal(twin_of(initial@)),
            s.solvable() || s.twin_solved() || s.exhausted(),
            !(s.solvable() && s.twin_solved()),
            !(s.solvable() && s.exhausted()),
            !(s.twin_solved() && s.exhausted()),
            s.exhausted() ==> s.explored() + 4 > MAX_NODES,
            !s.exhausted() ==> (s.solvable() <==> reaches_goal(initial@)),
            is_goal_grid(initial@) ==> s.path() == seq![initial@],
            s.solvable() ==> no_shorter(s.path(), initial@),
    {
        let twin = initial.twin();
        let mut puzzle = Puzzle::new(initial);
        let mut twin_puzzle = Puzzle::new(twin);
        let ghost start = puzzle.start();
        let ghost twin_start = twin_puzzle.start();
        let mut twin_solved = false;
        let ghost mut twin_goal: int = 0;
        let ghost mut expanded: Set<int> = Set::empty();
        let ghost mut kid: spec_fn(int, int) -> int = |h: int, j: int| 0int;
        proof {
            assert(puzzle.frontier@[0] == entry_for(puzzle.nodes@, 0));
            assert(cover_ok(puzzle, expanded, kid));
        }
        while puzzle.nodes.len() + 4 <= MAX_NODES && twin_puzzle.nodes.len() + 4 <= MAX_NODES
            invariant_except_break
                puzzle.frontier@.len() > 0,
                cover_ok(puzzle, expanded, kid),
                is_goal_grid(start) ==> puzzle.nodes@.len() == 1 && puzzle.frontier@.len() == 1
                    && twin_puzzle.nodes@.len() == 1,
                twin_puzzle.frontier@.len() > 0,
                puzzle.solution@.len() == 0,
                !twin_solved,
            invariant
                puzzle.wf(),
                twin_puzzle.wf(),
                puzzle.start() == start,
                twin_puzzle.start() == twin_start,
                start == initial@,
                twin_start == twin_of(initial@),
                twin_solved ==> 0 <= twin_goal < twin_puzzle.nodes@.len() && is_goal_grid(
                    twin_puzzle.nodes@[twin_goal].board@,
                ),
                twin_solved ==> puzzle.solution@.len() == 0,
                is_goal_grid(start) ==> !twin_solved,
            ensures
                puzzle.solution@.len() > 0 ==> no_shorter(
                    puzzle.solution@.map_values(|b: Board| b@),
                    initial@,
                ),
                is_goal_grid(initial@) ==> puzzle.solution@.map_values(|b: Board| b@) == seq![initial@],
                puzzle.wf(),
                twin_puzzle.wf(),
                puzzle.start() == initial@,
                twin_puzzle.start() == twin_of(initial@),
                puzzle.solution@.len() == 0 || exists|h: int|
                    0 <= h < puzzle.nodes@.len() && is_goal_grid(puzzle.nodes@[h].board@)
                        && puzzle.solution@.map_values(|b: Board| b@) == path_to(puzzle.nodes@, h),
                twin_solved ==> 0 <= twin_goal < twin_puzzle.nodes@.len() && is_goal_grid(
                    twin_puzzle.nodes@[twin_goal].board@,
                ),
                twin_solved ==> puzzle.solution@.len() == 0,
                puzzle.solution@.len() == 0 && !twin_solved ==> puzzle.nodes@.len() + 4
                    > MAX_NODES || twin_puzzle.nodes@.len() + 4 > MAX_NODES,
            decreases MAX_NODES - puzzle.nodes@.len(),
        {
            let ghost before = puzzle;
            match puzzle.step() {
                Some(e) => {
                    proof {
                        let i = choose|i: int|
                            {
                                &&& 0 <= i < before.frontier@.len()
                                &&& forall|j: int|
                                    0 <= j < before.frontier@.len() ==> precedes(
                                        before.frontier@[i],
                                        #[trigger] before.frontier@[j],
                                    )
                                &&& before.expands(puzzle, before.frontier@[i], i, Some(e))
                            };
                        assert(before.frontier@[i].handle < before.nodes@.len());
                        lemma_goal_is_nearest(before, expanded, kid, i);
                        assert(before.frontier@[i] == e);
                        assert(no_shorter(path_to(before.nodes@, e.handle as int), initial@));
                    }
                    puzzle.build_solution(e.handle);
                    proof {
                        if is_goal_grid(start) {
                            assert(e.handle == 0);
                            assert(path_to(puzzle.nodes@, 0) =~= seq![start]);
                        }
                        let h = e.handle as int;
                        lemma_path_to(puzzle.nodes@, puzzle.nodes@[0].board.dim(), h);
                        assert(0 <= h < puzzle.nodes@.len() && is_goal_grid(puzzle.nodes@[h].board@)
                            && puzzle.solution@.map_values(|b: Board| b@) == path_to(
                            puzzle.nodes@,
                            h,
                        ));
                        assert(puzzle.solution@.map_values(|b: Board| b@).len() > 0);
                        assert(puzzle.nodes@ == before.nodes@);
                    }
                    break;
                },
                None => {
                    proof {
                        let i = choose|i: int|
                            {
                                &&& 0 <= i < before.frontier@.len()
                                &&& forall|j: int|
                                    0 <= j < before.frontier@.len() ==> precedes(
                                        before.frontier@[i],
                                        #[trigger] before.frontier@[j],
                                    )
                                &&& before.expands(puzzle, before.frontier@[i], i, None::<Entry>)
                            };
                        lemma_cover_step(before, puzzle, expanded, kid, i);
                        let h = before.frontier@[i].handle as int;
                        let old_len = before.nodes@.len();
                        let old_kid = kid;
                        expanded = expanded.insert(h);
                        kid = |h2: int, j: int| if h2 == h { old_len + j } else { old_kid(h2, j) };
                        if is_goal_grid(start) {
                            let i = choose|i: int|
                                {
                                    &&& 0 <= i < before.frontier@.len()
                                    &&& forall|j: int|
                                        0 <= j < before.frontier@.len() ==> precedes(
                                            before.frontier@[i],
                                            #[trigger] before.frontier@[j],
                                        )
                                    &&& before.expands(
                                        puzzle,
                                        before.frontier@[i],
                                        i,
                                        None::<Entry>,
                                    )
                                };
                            assert(before.frontier@[i].handle < before.nodes@.len());
                            assert(before.frontier@[i].handle == 0);
                            assert(false);
                        }
                    }
                },
            }
            let ghost twin_before = twin_puzzle;
            match twin_puzzle.step() {
                Some(e) => {
                    proof {
                        let i = choose|i: int|
                            {
                                &&& 0 <= i < twin_before.frontier@.len()
                                &&& forall|j: int|
                                    0 <= j < twin_before.frontier@.len() ==> precedes(
                                        twin_before.frontier@[i],
                                        #[trigger] twin_before.frontier@[j],
                                    )
                                &&& twin_before.expands(
                                    twin_puzzle,
                                    twin_before.frontier@[i],
                                    i,
                                    Some(e),
                                )
                            };
                        assert(twin_before.frontier@[i].handle < twin_before.nodes@.len());
                        twin_goal = e.handle as int;
                    }
                    twin_solved = true;
                    break;
                },
                None => {},
            }
        }
        proof {
            if puzzle.solution@.len() > 0 {
                let h = choose|h: int|
                    0 <= h < puzzle.nodes@.len() && is_goal_grid(puzzle.nodes@[h].board@)
                        && puzzle.solution@.map_values(|b: Board| b@) == path_to(puzzle.nodes@, h);
                lemma_path_to(puzzle.nodes@, puzzle.nodes@[0].board.dim(), h);
            }
            if twin_solved {
                lemma_path_to(twin_puzzle.nodes@, twin_puzzle.nodes@[0].board.dim(), twin_goal);
                assert(reaches_goal(twin_of(initial@))) by {
                    let path = path_to(twin_puzzle.nodes@, twin_goal);
                    assert(path.len() >= 1 && path[0] == twin_of(initial@) && is_goal_grid(
                        path.last(),
                    ) && is_move_sequence(path));
                }
            }
        }
        let ran_out = puzzle.solution.is_empty() && !twin_solved;
        proof {
            if twin_solved {
                lemma_twin_flips_class(initial@);
                lemma_reaching_goal_fixes_class(twin_of(initial@));
                if reaches_goal(initial@) {
                    lemma_reaching_goal_fixes_class(initial@);
                }
            }
            if puzzle.solution@.len() > 0 {
                let path = puzzle.solution@.map_values(|b: Board| b@);
                assert(path.len() >= 1 && path[0] == initial@ && is_goal_grid(path.last())
                    && is_move_sequence(path));
            }
        }
        Solver { puzzle, twin_puzzle, twin_solved, ran_out }
    }

    /// Whether the search stopped at `MAX_NODES` nodes before either the
    /// board or its twin reached the goal: an outcome of its own, neither
    /// solvable nor unsolvable.
    pub fn is_exhausted(&self) -> (r: bool)
        requires
            self.wf(),
        ensures
            r == self.exhausted(),
    {
        self.ran_out
    }

    /// Whether a solution of the initial board was found; false when the
    /// twin reached the goal, and when the search was exhausted.
    pub fn is_solvable(&self) -> (r: bool)
        requires
            self.wf(),
        ensures
            r == self.solvable(),
    {
        self.moves() > -1
    }

    /// Number of moves of the solution the A* search found; `-1` when the
    /// initial board cannot be solved, or when the search was exhausted
    /// (`is_exhausted` tells the two apart).
    pub fn moves(&self) -> (r: isize)
        requires
            self.wf(),
        ensures
            self.solvable() ==> r == self.path().len() - 1,
            !self.solvable() ==> r == -1,
    {
        if self.puzzle.solution.is_empty() {
            -1
        } else {
            (self.puzzle.solution.len() - 1) as isize
        }
    }

    /// The boards of the solution found, from the initial board to the
    /// goal; `None` when the board cannot be solved.
    pub fn solution(&self) -> (r: Option<&Vec<Board>>)
        requires
            self.wf(),
        ensures
            r is Some <==> self.solvable(),
            r matches Some(v) ==> v@.map_values(|b: Board| b@) == self.path(),
    {
        if self.is_solvable() {
            Some(&self.puzzle.solution)
        } else {
            None
        }
    }
}

/// A board from which moves reach the goal lies in the goal's class.
pub proof fn lemma_reaching_goal_fixes_class(g: Seq<Seq<usize>>)
    requires
        valid_grid(g),
        reaches_goal(g),
    ensures
        parity_class(g) == goal_class(g.len() as int),
{
    let path = choose|path: Seq<Seq<Seq<usize>>>|
        path.len() >= 1 && path[0] == g && is_goal_grid(path.last()) && is_move_sequence(path);
    assert forall|k: int| 0 < k < path.len() implies neighbors_of(#[trigger] path[k - 1]).contains(
        path[k],
    ) by {
        assert(is_move(path[k - 1], path[k]));
    }
    lemma_moves_keep_class(path, path.len() - 1);
    lemma_goal_class(path.last());
}

/// A solution found makes at least as many moves as the Manhattan distance
/// of the initial board, and never passes the same board twice.
pub proof fn lemma_solution_shortest(s: Solver)
    requires
        s.wf(),
        s.solvable(),
    ensures
        manhattan_of(s.initial()) <= s.path().len() - 1,
        forall|a: int, b: int| 0 <= a < b < s.path().len() ==> s.path()[a] != s.path()[b],
{
    let path = s.path();
    assert forall|i: int| 0 < i < path.len() implies neighbors_of(#[trigger] path[i - 1]).contains(
        path[i],
    ) by {
        assert(is_move(path[i - 1], path[i]));
    }
    lemma_manhattan_admissible(path, 0);
    assert forall|a: int, b: int| 0 <= a < b < path.len() implies path[a] != path[b] by {
        if path[a] == path[b] {
            let q = path.take(a + 1) + path.skip(b + 1);
            assert(q.len() == path.len() - (b - a));
            assert(q[0] == path[0]);
            assert(q.last() == path.last()) by {
                if b + 1 < path.len() {
                } else {
                    assert(q.last() == path[a]);
                }
            }
            assert forall|i: int| 0 < i < q.len() implies is_move(#[trigger] q[i - 1], q[i]) by {
                if i <= a {
                    assert(q[i - 1] == path[i - 1] && q[i] == path[i]);
                } else if i == a + 1 {
                    assert(q[i - 1] == path[b] && q[i] == path[b + 1]);
                    assert(is_move(path[(b + 1) - 1], path[b + 1]));
                } else {
                    let o = i + (b - a);
                    assert(q[i - 1] == path[o - 1] && q[i] == path[o]);
                }
            }
            assert(is_move_sequence(q));
        }
    }
}

/// A board and its twin never both reach the goal.
pub proof fn lemma_board_and_twin_not_both_solvable(b: Seq<Seq<usize>>)
    requires
        valid_grid(b),
    ensures
        !(reaches_goal(b) && reaches_goal(twin_of(b))),
{
    lemma_twin_flips_class(b);
    if reaches_goal(b) && reaches_goal(twin_of(b)) {
        lemma_reaching_goal_fixes_class(b);
        lemma_reaching_goal_fixes_class(twin_of(b));
    }
}

/// Exactly one of a board and its twin can be solved: of two solvers run to
/// an end, one on a board and one on its twin, exactly one finds a solution.
pub proof fn lemma_board_or_twin_solvable(s: Solver, t: Solver)
    requires
        s.wf(),
        t.wf(),
        t.initial() == twin_of(s.initial()),
        !s.exhausted(),
        !t.exhausted(),
    ensures
        s.solvable() != t.solvable(),
{
    let b = s.initial();
    let n = b.len() as int;
    lemma_twin_flips_class(b);
    lemma_twin_flips_class(twin_of(b));
    let cb = parity_class(b);
    let ct = parity_class(twin_of(b));
    let ctt = parity_class(twin_of(twin_of(b)));
    assert(0 <= cb < 2 && 0 <= ct < 2 && 0 <= ctt < 2);
    if s.solvable() {
        assert(reaches_goal(b)) by {
            let path = s.path();
            assert(path.len() >= 1 && path[0] == b && is_goal_grid(path.last()) && is_move_sequence(
                path,
            ));
        }
        lemma_reaching_goal_fixes_class(b);
    } else {
        lemma_reaching_goal_fixes_class(twin_of(b));
    }
    if t.solvable() {
        assert(reaches_goal(twin_of(b))) by {
            let path = t.path();
            assert(path.len() >= 1 && path[0] == twin_of(b) && is_goal_grid(path.last())
                && is_move_sequence(path));
        }
        lemma_reaching_goal_fixes_class(twin_of(b));
    } else {
        lemma_reaching_goal_fixes_class(twin_of(twin_of(b)));
    }
}

/// A solution found starts at the initial board, ends at the goal, and
/// makes one move per step.
pub proof fn lemma_solution_ends(s: Solver)
    requires
        s.wf(),
        s.solvable(),
    ensures
        s.path()[0] == s.initial(),
        is_goal_grid(s.path().last()),
        is_move_sequence(s.path()),
{
}

} // verus!
