//! The exerciser-style tests: a fixed run over one batch of values with
//! dumps and checks after every step, and many randomized rounds of
//! inserting, shuffling and removing, with the invariant checker and the
//! iterator's ordering consulted throughout.

use rand::seq::SliceRandom;
use rand::Rng;

use rbbtree::Global;
use rbbtree::RBBTree;

fn collect(tree: &RBBTree) -> Vec<u64> {
    let mut out = Vec::new();
    let mut it = tree.iter();
    while let Some(v) = it.next() {
        out.push(*v);
    }
    out
}

#[test]
fn simple() {
    let v: Vec<u64> = vec![
        6604497006826313,
        4802799059433479,
        4172210424843700,
        9563578859236865,
        8728550074374297,
        1337926729039392,
        9863098457087216,
        2927782076332135,
        4034453299328443,
        3936663415055562,
    ];

    let mut rnb = RBBTree::new();
    for val in v.iter() {
        println!("inserting {}", val);
        rnb.insert(*val);
        rnb.prefix_dump();
        assert!(rnb.check_nodes());
    }
    let mut iter = rnb.iter();
    while let Some(elem) = iter.next() {
        println!("{}", elem);
    }
    assert_eq!(rnb.remove(&1927782076332135), false);
    for e in v.iter() {
        println!("Removing entry {}", e);
        rnb.prefix_dump();
        assert_eq!(rnb.remove(e), true);
        rnb.prefix_dump();
        assert!(rnb.check_nodes());
        println!("Checked");
    }
    assert_eq!(rnb.len(), 0);
}

fn make_multiple_test<F>(gen: F, bad_value: &u64)
where
    F: Fn() -> RBBTree,
{
    let mut rng = rand::thread_rng();
    for _i in 0..64 {
        let mut rnb = gen();
        let mut v: Vec<u64> = Vec::new();
        for _j in 0..64 {
            v.push(rng.gen::<u64>());
        }
        for val in v.iter() {
            rnb.insert(*val);
            assert!(rnb.check_nodes());
        }
        assert_eq!(rnb.remove(bad_value), false);
        let mut v_acc = v.len();
        v.shuffle(&mut rand::thread_rng());
        for e in v.iter() {
            v_acc -= 1;
            let b = rnb.remove(e);
            assert_eq!(b, true);
            assert!(rnb.check_nodes());
            let mut max = None;
            let mut acc = v_acc;
            let mut g_iter = rnb.iter();
            while let Some(g) = g_iter.next() {
                acc -= 1;
                if let Some(max) = max {
                    if g < max {
                        panic!("Error for {}", g);
                    }
                }
                max = Some(g);
            }
            assert_eq!(acc, 0);
        }
        assert_eq!(rnb.iter().next(), None);
    }
}

#[test]
fn multiple() {
    make_multiple_test(|| RBBTree::new(), &12);
}

#[test]
fn multiple_custom_alloc() {
    make_multiple_test(|| RBBTree::new_in(Global {}), &12);
}
