use eqgraph::EqGraph;
use std::collections::HashMap;

fn stored(g: &EqGraph<u32>) -> HashMap<u32, u32> {
    g.iter_parents().into_iter().map(|(c, p)| (*c, *p)).collect()
}

#[test]
fn empty_graph_has_no_entries() {
    let g: EqGraph<u32> = EqGraph::new();
    assert!(g.iter_parents().is_empty());
    assert!(g.iter_roots().is_empty());
    assert!(g.parents_to_children().is_empty());
    assert!(g.decreasing());
}

#[test]
fn default_is_empty() {
    let g: EqGraph<u64> = EqGraph::default();
    assert!(g.iter_parents().is_empty());
    assert_eq!(*g.root_of(&17), 17);
}

#[test]
fn unseen_vertex_is_its_own_root() {
    let mut g = EqGraph::new();
    g.relate(3u32, 4);
    assert_eq!(*g.root_of(&100), 100);
    assert_eq!(*g.root_of(&0), 0);
}

#[test]
fn relate_stores_larger_root_below_smaller() {
    let mut g = EqGraph::new();
    g.relate(7u32, 3);
    assert_eq!(stored(&g), HashMap::from([(7, 3)]));
    g.relate(3, 7);
    assert_eq!(stored(&g), HashMap::from([(7, 3)]));
}

#[test]
fn relate_links_roots_not_arguments() {
    let mut g = EqGraph::new();
    g.relate(10u32, 5);
    g.relate(20, 15);
    g.relate(10, 20);
    assert_eq!(stored(&g), HashMap::from([(10, 5), (20, 15), (15, 5)]));
    assert_eq!(*g.root_of(&20), 5);
}

#[test]
fn relate_twice_changes_nothing() {
    let mut g = EqGraph::new();
    g.relate(1u32, 2);
    g.relate(8, 4);
    g.relate(2, 8);
    let before = stored(&g);
    g.relate(2, 8);
    assert_eq!(stored(&g), before);
}

#[test]
fn relate_is_symmetric() {
    let pairs = [(5u32, 2u32), (2, 9), (30, 40), (40, 9), (1, 30)];
    let mut forward = EqGraph::new();
    let mut backward = EqGraph::new();
    for (a, b) in pairs {
        forward.relate(a, b);
        backward.relate(b, a);
    }
    assert_eq!(stored(&forward), stored(&backward));
    for v in 0..50u32 {
        assert_eq!(forward.root_of(&v), backward.root_of(&v));
    }
}

#[test]
fn relate_is_transitive() {
    let mut g = EqGraph::new();
    g.relate(12u32, 7);
    g.relate(7, 31);
    assert_eq!(g.root_of(&12), g.root_of(&31));
    assert_eq!(*g.root_of(&31), 7);
}

#[test]
fn relate_self_stores_nothing() {
    let mut g = EqGraph::new();
    g.relate(4u32, 4);
    assert!(g.iter_parents().is_empty());
    g.relate(9, 4);
    let before = stored(&g);
    g.relate(9, 9);
    g.relate(4, 4);
    assert_eq!(stored(&g), before);
}

#[test]
fn smaller_vertex_becomes_root() {
    let mut g = EqGraph::new();
    g.relate(3u32, 8);
    assert_eq!(*g.root_of(&8), 3);
    assert_eq!(*g.root_of(&3), 3);
}

#[test]
fn smaller_argument_loses_to_an_older_smaller_root() {
    let mut g = EqGraph::new();
    g.relate(5u32, 2);
    g.relate(5, 9);
    assert_eq!(*g.root_of(&9), 2);
}

#[test]
fn cycle_of_three_has_root_two() {
    let mut g = EqGraph::new();
    assert!(g.decreasing());
    g.relate(5u32, 2);
    assert!(g.decreasing());
    g.relate(2, 9);
    assert!(g.decreasing());
    g.relate(9, 5);
    assert!(g.decreasing());
    assert_eq!(*g.root_of(&2), 2);
    assert_eq!(*g.root_of(&5), 2);
    assert_eq!(*g.root_of(&9), 2);
    assert!(g.iter_parents().len() <= 2);
    assert_eq!(stored(&g), HashMap::from([(5, 2), (9, 2)]));
}

#[test]
fn two_pairs_joined_share_root_ten() {
    let mut g = EqGraph::new();
    g.relate(10u32, 20);
    g.relate(30, 40);
    g.relate(20, 30);
    for v in [10u32, 20, 30, 40] {
        assert_eq!(*g.root_of(&v), 10);
    }
    assert_eq!(stored(&g), HashMap::from([(20, 10), (40, 30), (30, 10)]));
}

#[test]
fn flatten_points_every_key_at_its_root() {
    let mut g = EqGraph::new();
    g.relate(4u32, 3);
    g.relate(3, 2);
    g.relate(2, 1);
    g.relate(9, 8);
    assert_eq!(stored(&g), HashMap::from([(4, 3), (3, 2), (2, 1), (9, 8)]));
    g.flatten();
    assert_eq!(stored(&g), HashMap::from([(4, 1), (3, 1), (2, 1), (9, 8)]));
    assert!(g.decreasing());
}

#[test]
fn flatten_keeps_every_root() {
    let mut g = EqGraph::new();
    for (a, b) in [(6u32, 5u32), (5, 4), (4, 3), (12, 11), (11, 3), (20, 21)] {
        g.relate(a, b);
    }
    let before: Vec<u32> = (0..25u32).map(|v| *g.root_of(&v)).collect();
    g.flatten();
    let after: Vec<u32> = (0..25u32).map(|v| *g.root_of(&v)).collect();
    assert_eq!(before, after);
    for (child, parent) in g.iter_parents() {
        assert_eq!(g.root_of(child), parent);
    }
}

#[test]
fn flatten_twice_is_flatten_once() {
    let mut g = EqGraph::new();
    for (a, b) in [(6u32, 5u32), (5, 4), (4, 3)] {
        g.relate(a, b);
    }
    g.flatten();
    let once = stored(&g);
    g.flatten();
    assert_eq!(stored(&g), once);
}

#[test]
fn flatten_of_empty_graph_is_empty() {
    let mut g: EqGraph<u32> = EqGraph::new();
    g.flatten();
    assert!(g.iter_parents().is_empty());
}

#[test]
fn every_integer_vertex_type_works() {
    let mut a: EqGraph<u8> = EqGraph::new();
    a.relate(200, 100);
    assert_eq!(*a.root_of(&200), 100);
    let mut b: EqGraph<u16> = EqGraph::new();
    b.relate(60000, 100);
    assert_eq!(*b.root_of(&60000), 100);
    let mut c: EqGraph<u32> = EqGraph::new();
    c.relate(4_000_000_000, 100);
    assert_eq!(*c.root_of(&4_000_000_000), 100);
    let mut d: EqGraph<u64> = EqGraph::new();
    d.relate(u64::MAX, 0);
    assert_eq!(*d.root_of(&u64::MAX), 0);
    let mut e: EqGraph<usize> = EqGraph::new();
    e.relate(usize::MAX, 1);
    assert_eq!(*e.root_of(&usize::MAX), 1);
}
