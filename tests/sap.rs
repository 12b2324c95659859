use algo::util::digraph::Digraph;
use algo::wordnet::sap::Sap;

// 3 -> 1 -> 0, 4 -> 1, 2 -> 0, 5 -> 2, 6 alone
fn tree() -> Sap {
    let mut g = Digraph::new(7);
    g.add_edge(1, 0);
    g.add_edge(2, 0);
    g.add_edge(3, 1);
    g.add_edge(4, 1);
    g.add_edge(5, 2);
    Sap::new(g)
}

#[test]
fn sap_siblings_meet_at_parent() {
    let s = tree();
    assert_eq!(s.length(3, 4), Some(2));
    assert_eq!(s.ancestor(3, 4), Some(1));
}

#[test]
fn sap_cousins_meet_at_root() {
    let s = tree();
    assert_eq!(s.length(3, 5), Some(4));
    assert_eq!(s.ancestor(3, 5), Some(0));
}

#[test]
fn sap_skips_an_endpoint_as_ancestor() {
    let s = tree();
    assert_eq!(s.length(3, 1), Some(3));
    assert_eq!(s.ancestor(3, 1), Some(0));
}

#[test]
fn sap_without_common_ancestor() {
    let s = tree();
    assert_eq!(s.length(3, 6), None);
    assert_eq!(s.ancestor(6, 0), None);
}

#[test]
fn sap_from_vertex_sets() {
    let s = tree();
    assert_eq!(s.multi_length(&[3, 5], &[4]), Some(2));
    assert_eq!(s.multi_ancestor(&[3, 5], &[4]), Some(1));
    assert_eq!(s.multi_length(&[6], &[3, 4]), None);
}
