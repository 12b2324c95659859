use algo::error::AlgoError;
use algo::percolation::Percolation;

#[test]
fn percolation_needs_a_positive_size() {
    assert!(matches!(Percolation::new(0), Err(AlgoError::IllegalArgument)));
}

#[test]
fn fresh_grid_is_blocked() {
    let mut p = Percolation::new(3).unwrap();
    assert_eq!(p.number_of_open_sites(), 0);
    assert!(!p.percolates());
    assert_eq!(p.is_open(1, 1).unwrap(), false);
    assert_eq!(p.is_full(2, 2).unwrap(), false);
    assert_eq!(p.to_id(2, 3).unwrap(), 6);
    assert!(matches!(p.to_id(4, 2), Err(AlgoError::IllegalArgument)));
}

#[test]
fn opening_every_site_percolates() {
    let mut p = Percolation::new(3).unwrap();
    for k in 1..=9 {
        p.open_random().unwrap();
        assert_eq!(p.number_of_open_sites(), k);
    }
    assert!(p.percolates());
    assert!(p.is_open(2, 2).unwrap());
    assert!(p.is_full(3, 1).unwrap());
    assert!(matches!(p.open_random(), Err(AlgoError::NoBlockedSites)));
}

#[test]
fn single_site_grid_percolates_at_once() {
    let mut p = Percolation::new(1).unwrap();
    assert!(p.percolates());
}
