use eqgraph::EqGraph;
use tinyrand::{Rand, Seeded, StdRand};

#[test]
fn tests_test() {
    let mut rng = StdRand::seed(0);
    let vert_domain_size = [1u16, 4, 16, 64, 256];
    let relations = [0u16, 1, 4, 16, 64, 256];
    for v in vert_domain_size {
        for r in relations {
            let mut eg = EqGraph::default();
            for _ in 0..r {
                eg.relate(rng.next_lim_u16(v), rng.next_lim_u16(v));
            }
            assert!(eg.decreasing());
            eg.flatten();
            assert!(eg.decreasing());
        }
    }
}

#[test]
fn main_test() {
    let mut rng = StdRand::seed(0);
    let vert_domain_size = [1u16, 4, 16, 64, 256];
    let relations = [0u16, 1, 4, 16, 64, 256];
    for v in vert_domain_size {
        for r in relations {
            let mut eg = EqGraph::default();
            for _ in 0..r {
                eg.relate(rng.next_lim_u16(v), rng.next_lim_u16(v));
            }
            assert!(eg.decreasing());
            eg.flatten();
            assert!(eg.decreasing());
        }
    }
}

#[test]
fn fuzz_invariant_holds_after_every_call() {
    let mut rng = StdRand::seed(7);
    for n in [1u16, 3, 10, 100] {
        for count in [0usize, 1, 5, 50, 500] {
            let mut eg = EqGraph::default();
            assert!(eg.decreasing());
            for _ in 0..count {
                eg.relate(rng.next_lim_u16(n), rng.next_lim_u16(n));
                assert!(eg.decreasing());
            }
            eg.flatten();
            assert!(eg.decreasing());
        }
    }
}

#[test]
fn fuzz_roots_are_class_minima() {
    let mut rng = StdRand::seed(11);
    let n = 40u16;
    let mut eg = EqGraph::default();
    let mut class: Vec<u16> = (0..n).collect();
    for _ in 0..60 {
        let a = rng.next_lim_u16(n);
        let b = rng.next_lim_u16(n);
        eg.relate(a, b);
        let (ca, cb) = (class[a as usize], class[b as usize]);
        let low = ca.min(cb);
        for c in class.iter_mut() {
            if *c == ca || *c == cb {
                *c = low;
            }
        }
        for v in 0..n {
            assert_eq!(*eg.root_of(&v), class[v as usize]);
        }
    }
    eg.flatten();
    for v in 0..n {
        assert_eq!(*eg.root_of(&v), class[v as usize]);
    }
}
