use algo::eight_puzzle::board::Board;
use algo::eight_puzzle::solver::Solver;
use algo::error::AlgoError;

fn board(rows: Vec<Vec<usize>>) -> Board {
    Board::new(rows).unwrap()
}

#[test]
fn board_test() {
    let b = board(vec![vec![8, 1, 3], vec![4, 0, 2], vec![7, 6, 5]]);
    println!("{:?}", b);
    assert_eq!(b.hamming(), 5);
    assert_eq!(b.manhattan(), 10);
    let b2 = board(vec![vec![8, 1, 3], vec![4, 0, 2], vec![7, 6, 5]]);
    assert_eq!(b, b2);
    let b3 = board(vec![vec![1, 0, 3], vec![4, 2, 5], vec![7, 8, 6]]);
    for b in b3.neighbors() {
        println!("{:?}", b);
    }
}

#[test]
fn board_test2() {
    let b = board(vec![vec![1, 0, 3], vec![4, 8, 2], vec![7, 6, 5]]);
    println!("{:?}", b);
    let twin = b.twin();
    println!("{:?}", twin);
}

#[test]
fn solver_test() {
    let b = board(vec![vec![8, 1, 3], vec![4, 0, 2], vec![7, 6, 5]]);
    let s = Solver::new(b);
    println!("Minimum numnber of moves = {}\n", s.moves());
    if let Some(boards) = s.solution() {
        for bs in boards {
            println!("{:?}", bs);
        }
    }
}

#[test]
fn test_unsolvable() {
    let b = board(vec![vec![8, 1, 6], vec![4, 5, 3], vec![7, 2, 0]]);
    let s = Solver::new(b);
    println!("Minimum numnber of moves = {}\n", s.moves());
    if let Some(boards) = s.solution() {
        for bs in boards {
            println!("{:?}", bs);
        }
    }
}

#[test]
fn heuristics_of_sample_board() {
    let b = board(vec![vec![8, 1, 3], vec![4, 0, 2], vec![7, 6, 5]]);
    assert_eq!(b.hamming(), 5);
    assert_eq!(b.manhattan(), 10);
    assert!(!b.is_goal());
    assert_eq!(b.dimension(), 3);
}

#[test]
fn goal_board_has_zero_distances() {
    let b = board(vec![vec![1, 2, 3], vec![4, 5, 6], vec![7, 8, 0]]);
    assert!(b.is_goal());
    assert_eq!(b.hamming(), 0);
    assert_eq!(b.manhattan(), 0);
    let near = board(vec![vec![1, 2, 3], vec![4, 5, 6], vec![7, 0, 8]]);
    assert!(!near.is_goal());
    assert_eq!(near.hamming(), 1);
    assert_eq!(near.manhattan(), 1);
}

#[test]
fn neighbor_counts_by_blank_position() {
    let corner = board(vec![vec![0, 1, 3], vec![4, 2, 5], vec![7, 8, 6]]);
    assert_eq!(corner.neighbors().len(), 2);
    let edge = board(vec![vec![1, 0, 3], vec![4, 2, 5], vec![7, 8, 6]]);
    assert_eq!(edge.neighbors().len(), 3);
    let center = board(vec![vec![1, 2, 3], vec![4, 0, 5], vec![7, 8, 6]]);
    assert_eq!(center.neighbors().len(), 4);
}

#[test]
fn neighbors_come_left_up_down_right() {
    let center = board(vec![vec![1, 2, 3], vec![4, 0, 5], vec![7, 8, 6]]);
    let n = center.neighbors();
    assert_eq!(n[0], board(vec![vec![1, 2, 3], vec![0, 4, 5], vec![7, 8, 6]]));
    assert_eq!(n[1], board(vec![vec![1, 0, 3], vec![4, 2, 5], vec![7, 8, 6]]));
    assert_eq!(n[2], board(vec![vec![1, 2, 3], vec![4, 8, 5], vec![7, 0, 6]]));
    assert_eq!(n[3], board(vec![vec![1, 2, 3], vec![4, 5, 0], vec![7, 8, 6]]));
}

#[test]
fn twin_swaps_first_two_tiles() {
    let b = board(vec![vec![1, 0, 3], vec![4, 8, 2], vec![7, 6, 5]]);
    assert_eq!(b.twin(), board(vec![vec![3, 0, 1], vec![4, 8, 2], vec![7, 6, 5]]));
    let c = board(vec![vec![8, 1, 3], vec![4, 0, 2], vec![7, 6, 5]]);
    assert_eq!(c.twin(), board(vec![vec![1, 8, 3], vec![4, 0, 2], vec![7, 6, 5]]));
    let d = board(vec![vec![0, 1], vec![2, 3]]);
    assert_eq!(d.twin(), board(vec![vec![0, 2], vec![1, 3]]));
    assert_eq!(d.twin().twin(), d);
}

#[test]
fn invalid_boards_are_refused() {
    assert!(matches!(Board::new(vec![vec![0]]), Err(AlgoError::InvalidBoard)));
    assert!(matches!(Board::new(vec![]), Err(AlgoError::InvalidBoard)));
    assert!(matches!(
        Board::new(vec![vec![0, 1, 2], vec![3, 4, 5]]),
        Err(AlgoError::InvalidBoard)
    ));
    assert!(matches!(
        Board::new(vec![vec![0, 1], vec![2, 2]]),
        Err(AlgoError::InvalidBoard)
    ));
    assert!(matches!(
        Board::new(vec![vec![0, 1], vec![2, 4]]),
        Err(AlgoError::InvalidBoard)
    ));
    assert!(matches!(
        Board::new(vec![vec![0, 1], vec![2]]),
        Err(AlgoError::InvalidBoard)
    ));
}

#[test]
fn sample_board_solves_in_fourteen_moves() {
    let b = board(vec![vec![8, 1, 3], vec![4, 0, 2], vec![7, 6, 5]]);
    let s = Solver::new(b.clone());
    assert!(s.is_solvable());
    assert!(!s.is_exhausted());
    assert_eq!(s.moves(), 14);
    let path = s.solution().unwrap();
    assert_eq!(path.len(), 15);
    assert_eq!(path[0], b);
    assert!(path[14].is_goal());
}

#[test]
fn goal_board_needs_no_move() {
    let b = board(vec![vec![1, 2, 3], vec![4, 5, 6], vec![7, 8, 0]]);
    let s = Solver::new(b.clone());
    assert!(s.is_solvable());
    assert_eq!(s.moves(), 0);
    let path = s.solution().unwrap();
    assert_eq!(path.len(), 1);
    assert_eq!(path[0], b);
}

#[test]
fn short_solution_is_found() {
    let b = board(vec![vec![1, 0, 3], vec![4, 2, 5], vec![7, 8, 6]]);
    let s = Solver::new(b);
    assert_eq!(s.moves(), 3);
    assert_eq!(s.solution().unwrap().len(), 4);
}

#[test]
fn swapped_pair_is_unsolvable() {
    let b = board(vec![vec![1, 2, 3], vec![4, 5, 6], vec![8, 7, 0]]);
    let s = Solver::new(b.clone());
    assert!(!s.is_solvable());
    assert!(!s.is_exhausted());
    assert_eq!(s.moves(), -1);
    assert!(s.solution().is_none());
    let t = Solver::new(b.twin());
    assert!(t.is_solvable());
}

#[test]
fn board_and_twin_differ_in_solvability() {
    let b = board(vec![vec![8, 1, 6], vec![4, 5, 3], vec![7, 2, 0]]);
    let s = Solver::new(b.clone());
    let t = Solver::new(b.twin());
    assert!(s.is_solvable() != t.is_solvable());
    assert_eq!(s.moves(), -1);
    assert!(s.solution().is_none());
}

#[test]
fn boards_order_by_rows() {
    let a = board(vec![vec![0, 1], vec![2, 3]]);
    let b = board(vec![vec![1, 0], vec![2, 3]]);
    assert!(a < b);
    assert_eq!(a.clone(), a);
}

#[test]
fn blank_in_corner_solves_in_four_moves() {
    let b = board(vec![vec![0, 1, 3], vec![4, 2, 5], vec![7, 8, 6]]);
    let s = Solver::new(b);
    assert_eq!(s.moves(), 4);
}

#[test]
fn wide_board_is_accepted() {
    let n = 200;
    let mut rows = Vec::new();
    for r in 0..n {
        let mut row = Vec::new();
        for c in 0..n {
            row.push((r * n + c + 1) % (n * n));
        }
        rows.push(row);
    }
    let b = Board::new(rows).unwrap();
    assert!(b.is_goal());
    assert_eq!(b.manhattan(), 0);
}
