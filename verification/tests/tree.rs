use veb_tree::VEBTree;
use veb_tree::VebError;

#[test]
fn creation() {
    assert!(VEBTree::new(50).is_ok());
}

#[test]
fn creation_fail() {
    assert!(VEBTree::new(1).is_err());
}

#[test]
fn insertion_and_has() {
    let mut tree = VEBTree::new(50).unwrap();
    assert!(!tree.has(25));
    assert!(!tree.has(26));
    tree.insert(25);
    assert!(tree.has(25));
    assert!(!tree.has(26));
    tree.insert(26);
    assert!(tree.has(25));
    assert!(tree.has(26));
}

#[test]
fn is_empty() {
    let mut tree = VEBTree::new(50).unwrap();
    assert!(tree.is_empty());
    tree.insert(25);
    assert!(!tree.is_empty());
    tree.delete(25);
    assert!(tree.is_empty());
}

#[test]
fn find_next() {
    let mut tree = VEBTree::new(50).unwrap();
    println!("find next: empty: {:?}", tree);
    assert!(tree.find_next(0).is_none());
    assert!(tree.find_next(24).is_none());
    assert!(tree.find_next(25).is_none());
    tree.insert(25);
    println!("find next: 25: {:?}", tree);
    assert!(tree.find_next(0).is_some());
    assert!(tree.find_next(24).is_some());
    // A key is its own successor; nothing lies above the only key.
    assert_eq!(tree.find_next(25), Some(25));
    assert!(tree.find_next_strict(25).is_none());
}

#[test]
fn delete() {
    let mut tree = VEBTree::new(50).unwrap();
    println!("delete: empty: {:?}", tree);
    assert!(!tree.has(25));
    assert!(!tree.has(26));
    tree.insert(25);
    println!("delete: 25: {:?}", tree);
    assert!(tree.has(25));
    assert!(!tree.has(26));
    tree.insert(26);
    println!("delete: 25 and 26: {:?}", tree);
    assert!(tree.has(25));
    assert!(tree.has(26));
    tree.delete(26);
    println!("delete: 26 (1 deletion): {:?}", tree);
    assert!(!tree.has(26));
    assert!(tree.has(25));
    tree.delete(25);
    println!("delete: empty (2 deletions): {:?}", tree);
    assert!(!tree.has(26));
    assert!(!tree.has(25));
}

#[test]
fn creation_rejects_small_universes() {
    assert_eq!(VEBTree::new(1).err(), Some(VebError::InvalidUniverse));
    assert_eq!(VEBTree::new(0).err(), Some(VebError::InvalidUniverse));
    assert_eq!(VEBTree::new(-7).err(), Some(VebError::InvalidUniverse));
    assert_eq!(VEBTree::new(2).unwrap().universe(), 2);
}

#[test]
fn extremes_and_successors() {
    let mut tree = VEBTree::new(10).unwrap();
    tree.insert(4);
    tree.insert(6);
    assert_eq!(tree.minimum(), Some(4));
    assert_eq!(tree.maximum(), Some(6));
    assert_eq!(tree.find_next(0), Some(4));
    assert_eq!(tree.find_next(4), Some(4));
    assert_eq!(tree.find_next(5), Some(6));
    assert_eq!(tree.find_next(7), None);
}

#[test]
fn membership_through_insert_and_delete() {
    let mut tree = VEBTree::new(50).unwrap();
    tree.insert(25);
    assert!(tree.has(25));
    assert!(!tree.has(26));
    tree.insert(26);
    assert!(tree.delete(26));
    assert!(!tree.has(26));
    assert!(tree.has(25));
    assert!(tree.delete(25));
    assert!(tree.is_empty());
}

#[test]
fn universe_of_two() {
    let mut tree = VEBTree::new(2).unwrap();
    tree.insert(0);
    tree.insert(1);
    assert_eq!(tree.minimum(), Some(0));
    assert_eq!(tree.maximum(), Some(1));
    assert_eq!(tree.find_next(0), Some(0));
    assert_eq!(tree.find_next(1), Some(1));
    assert!(tree.delete(0));
    assert_eq!(tree.minimum(), Some(1));
    assert_eq!(tree.find_next(0), Some(1));
    assert!(!tree.delete(0));
    assert!(tree.delete(1));
    assert!(tree.is_empty());
    assert_eq!(tree.minimum(), None);
    assert_eq!(tree.maximum(), None);
}

#[test]
fn full_universe() {
    let mut tree = VEBTree::new(64).unwrap();
    for i in 0..64 {
        tree.insert(i);
    }
    for i in 0..64 {
        assert!(tree.has(i));
    }
    for i in 0..63 {
        assert_eq!(tree.find_next(i), Some(i));
    }
    assert_eq!(tree.find_next(63), Some(63));
    assert!(tree.delete(32));
    assert_eq!(tree.find_next(31), Some(31));
    assert_eq!(tree.find_next(32), Some(33));
}

#[test]
fn out_of_range_queries() {
    let mut tree = VEBTree::new(16).unwrap();
    tree.insert(0);
    tree.insert(15);
    assert!(!tree.has(16));
    assert!(!tree.has(-1));
    assert!(!tree.has(i64::MAX));
    assert_eq!(tree.find_next(-5), Some(0));
    assert_eq!(tree.find_next(i64::MIN), Some(0));
    assert_eq!(tree.find_next(15), Some(15));
    assert_eq!(tree.find_next(16), None);
    assert_eq!(tree.find_next(i64::MAX), None);
    assert_eq!(tree.find_next_strict(15), None);
    assert_eq!(tree.find_next_strict(i64::MAX), None);
    assert_eq!(tree.find_next_strict(-1), Some(0));
    assert_eq!(tree.find_next_strict(0), Some(15));
    assert!(!tree.delete(16));
    assert!(!tree.delete(-1));
    assert!(!tree.delete(7));
    assert_eq!(tree.minimum(), Some(0));
    assert_eq!(tree.maximum(), Some(15));
}

#[test]
fn deleting_the_extremes() {
    let mut tree = VEBTree::new(100).unwrap();
    for x in [10, 20, 30, 40, 99, 0] {
        tree.insert(x);
    }
    assert_eq!(tree.minimum(), Some(0));
    assert_eq!(tree.maximum(), Some(99));
    assert!(tree.delete(0));
    assert_eq!(tree.minimum(), Some(10));
    assert!(tree.delete(99));
    assert_eq!(tree.maximum(), Some(40));
    assert!(tree.delete(40));
    assert_eq!(tree.maximum(), Some(30));
    assert!(tree.delete(10));
    assert_eq!(tree.minimum(), Some(20));
    assert_eq!(tree.find_next(21), Some(30));
    assert!(tree.delete(20));
    assert_eq!(tree.minimum(), Some(30));
    assert_eq!(tree.maximum(), Some(30));
    assert!(tree.delete(30));
    assert!(tree.is_empty());
}

// A small generator, so that the runs below are the same every time.
fn next_random(state: &mut u64) -> u64 {
    *state ^= *state << 13;
    *state ^= *state >> 7;
    *state ^= *state << 17;
    *state
}

fn check_against_model(tree: &VEBTree, model: &std::collections::BTreeSet<i64>, universe: i64) {
    assert_eq!(tree.is_empty(), model.is_empty());
    assert_eq!(tree.minimum(), model.iter().next().copied());
    assert_eq!(tree.maximum(), model.iter().next_back().copied());
    for x in 0..universe {
        assert_eq!(tree.has(x), model.contains(&x));
        assert_eq!(tree.find_next(x), model.range(x..).next().copied());
    }
}

#[test]
fn agrees_with_an_ordered_set() {
    let mut state: u64 = 0x9e3779b97f4a7c15;
    for universe in [2i64, 3, 4, 5, 7, 16, 17, 50, 64, 100, 255, 256, 257, 1000, 4096] {
        let mut tree = VEBTree::new(universe).unwrap();
        let mut model = std::collections::BTreeSet::new();
        for step in 0..300 {
            let x = (next_random(&mut state) % (universe as u64)) as i64;
            if next_random(&mut state) % 3 == 0 {
                assert_eq!(tree.delete(x), model.remove(&x));
            } else {
                tree.insert(x);
                model.insert(x);
            }
            if step % 25 == 0 || universe <= 64 {
                check_against_model(&tree, &model, universe);
            }
        }
        check_against_model(&tree, &model, universe);
    }
}

#[test]
fn large_universe() {
    let universe: i64 = 1 << 40;
    let mut tree = VEBTree::new(universe).unwrap();
    let keys = [0i64, 1, 1 << 20, (1 << 20) + 1, (1 << 39) + 12345, universe - 1];
    for &k in keys.iter().rev() {
        tree.insert(k);
    }
    assert_eq!(tree.minimum(), Some(0));
    assert_eq!(tree.maximum(), Some(universe - 1));
    assert_eq!(tree.find_next(2), Some(1 << 20));
    assert_eq!(tree.find_next((1 << 20) + 2), Some((1 << 39) + 12345));
    assert_eq!(tree.find_next((1 << 39) + 12346), Some(universe - 1));
    assert!(tree.delete(universe - 1));
    assert_eq!(tree.maximum(), Some((1 << 39) + 12345));
    assert!(!tree.has(universe - 1));
    assert!(!tree.has(universe));
}

#[test]
fn layout_depends_on_the_keys_alone() {
    let mut state: u64 = 0x2545f4914f6cdd1d;
    for universe in [2i64, 3, 4, 9, 16, 60, 256, 1000] {
        let mut tree = VEBTree::new(universe).unwrap();
        let mut model = std::collections::BTreeSet::new();
        for _ in 0..200 {
            let x = (next_random(&mut state) % (universe as u64)) as i64;
            if next_random(&mut state) % 2 == 0 {
                tree.delete(x);
                model.remove(&x);
            } else {
                tree.insert(x);
                model.insert(x);
            }
            // The same keys, inserted in descending order into a new tree.
            let mut rebuilt = VEBTree::new(universe).unwrap();
            for &k in model.iter().rev() {
                rebuilt.insert(k);
            }
            assert_eq!(format!("{:?}", tree), format!("{:?}", rebuilt));
        }
    }
}
