use veb_tree::split::upper_root;
use veb_tree::VEBTree;

#[test]
fn walk_in_ascending_order() {
    let mut tree = VEBTree::new(16).unwrap();
    tree.insert(2);
    tree.insert(3);
    tree.insert(4);
    tree.insert(15);
    let mut seen = Vec::new();
    let mut it = tree.iter();
    loop {
        match it.next() {
            Some(k) => seen.push(k),
            None => break,
        }
    }
    assert_eq!(seen, vec![2, 3, 4, 15]);
    assert_eq!(it.next(), None);
    assert_eq!(tree.to_vec(), vec![2, 3, 4, 15]);
}

#[test]
fn walk_of_an_empty_tree() {
    let tree = VEBTree::new(1000).unwrap();
    assert_eq!(tree.iter().next(), None);
    assert_eq!(tree.to_vec(), Vec::<i64>::new());
}

#[test]
fn walk_reaches_both_ends_of_the_universe() {
    let mut tree = VEBTree::new(257).unwrap();
    for x in [256, 0, 128, 17, 16, 255] {
        tree.insert(x);
    }
    assert_eq!(tree.to_vec(), vec![0, 16, 17, 128, 255, 256]);
    let mut two = VEBTree::new(2).unwrap();
    two.insert(1);
    assert_eq!(two.to_vec(), vec![1]);
    two.insert(0);
    assert_eq!(two.to_vec(), vec![0, 1]);
}

#[test]
fn walk_yields_each_key_once() {
    let mut tree = VEBTree::new(500).unwrap();
    let mut expected = Vec::new();
    let mut x = 7i64;
    for _ in 0..200 {
        x = (x * 31 + 11) % 500;
        tree.insert(x);
        if !expected.contains(&x) {
            expected.push(x);
        }
    }
    expected.sort();
    assert_eq!(tree.to_vec(), expected);
}

#[test]
fn second_insert_changes_nothing() {
    for universe in [2i64, 4, 50, 1000] {
        let mut tree = VEBTree::new(universe).unwrap();
        for x in [1, universe / 2, universe - 1, 0] {
            tree.insert(x);
            let once = format!("{:?}", tree);
            tree.insert(x);
            assert_eq!(format!("{:?}", tree), once);
        }
    }
}

#[test]
fn insert_then_delete_restores_the_tree() {
    let mut tree = VEBTree::new(300).unwrap();
    for x in [5, 100, 101, 250] {
        tree.insert(x);
    }
    for x in [0, 4, 6, 99, 102, 200, 251, 299] {
        let before = format!("{:?}", tree);
        tree.insert(x);
        assert_ne!(format!("{:?}", tree), before);
        assert!(tree.delete(x));
        assert_eq!(format!("{:?}", tree), before);
    }
}

#[test]
fn deleting_an_absent_key_changes_nothing() {
    let mut tree = VEBTree::new(300).unwrap();
    for x in [5, 100, 101, 250] {
        tree.insert(x);
    }
    let before = format!("{:?}", tree);
    for x in [0, 4, 6, 99, 102, 200, 251, 299, 300, -1] {
        assert!(!tree.delete(x));
        assert_eq!(format!("{:?}", tree), before);
    }
}

#[test]
fn deleting_every_key_leaves_a_fresh_tree() {
    let fresh = format!("{:?}", VEBTree::new(128).unwrap());
    let mut tree = VEBTree::new(128).unwrap();
    let keys = [17i64, 3, 127, 0, 64, 65, 66, 3, 17, 90];
    for &k in keys.iter() {
        tree.insert(k);
    }
    for &k in keys.iter() {
        tree.delete(k);
    }
    assert!(tree.is_empty());
    assert_eq!(tree.minimum(), None);
    assert_eq!(tree.maximum(), None);
    assert_eq!(format!("{:?}", tree), fresh);
}

#[test]
fn clone_is_a_separate_equal_tree() {
    let mut tree = VEBTree::new(90).unwrap();
    for x in [1, 2, 40, 89] {
        tree.insert(x);
    }
    let mut copy = tree.clone();
    assert_eq!(format!("{:?}", copy), format!("{:?}", tree));
    assert!(copy.delete(40));
    copy.insert(41);
    assert!(tree.has(40));
    assert!(!tree.has(41));
    assert_eq!(copy.to_vec(), vec![1, 2, 41, 89]);
    assert_eq!(tree.to_vec(), vec![1, 2, 40, 89]);
}

#[test]
fn cluster_that_empties_is_dropped() {
    let mut tree = VEBTree::new(64).unwrap();
    tree.insert(1);
    tree.insert(20);
    tree.insert(21);
    tree.insert(60);
    assert!(tree.delete(20));
    assert!(tree.delete(21));
    assert_eq!(tree.find_next(2), Some(60));
    assert_eq!(tree.to_vec(), vec![1, 60]);
    let mut other = VEBTree::new(64).unwrap();
    other.insert(60);
    other.insert(1);
    assert_eq!(format!("{:?}", tree), format!("{:?}", other));
}

#[test]
fn universe_is_kept() {
    for universe in [2i64, 3, 10, 50, 4096] {
        assert_eq!(VEBTree::new(universe).unwrap().universe(), universe);
    }
}

#[test]
fn cluster_width_is_the_rounded_root() {
    assert_eq!(upper_root(2), 2);
    assert_eq!(upper_root(3), 2);
    assert_eq!(upper_root(4), 2);
    assert_eq!(upper_root(5), 4);
    assert_eq!(upper_root(10), 4);
    assert_eq!(upper_root(16), 4);
    assert_eq!(upper_root(17), 8);
    assert_eq!(upper_root(50), 8);
    assert_eq!(upper_root(64), 8);
    assert_eq!(upper_root(65), 16);
    assert_eq!(upper_root(4096), 64);
    assert_eq!(upper_root(4097), 128);
    assert_eq!(upper_root(1 << 40), 1 << 20);
    assert_eq!(upper_root((1 << 40) + 1), 1 << 21);
    assert_eq!(upper_root(i64::MAX), 1 << 32);
}

#[test]
fn keys_that_differ_in_one_part_only() {
    // Universe 256 is cut into 16 clusters of 16 positions.
    let mut tree = VEBTree::new(256).unwrap();
    for x in [0x35, 0x3a, 0x45, 0xa5] {
        tree.insert(x);
    }
    assert!(tree.has(0x35));
    assert!(!tree.has(0x36));
    assert!(!tree.has(0x55));
    assert_eq!(tree.find_next(0x36), Some(0x3a));
    assert_eq!(tree.find_next(0x3b), Some(0x45));
    assert_eq!(tree.find_next(0x46), Some(0xa5));
    assert_eq!(tree.find_next(0xa6), None);
    assert!(tree.delete(0x3a));
    assert_eq!(tree.find_next(0x36), Some(0x45));
    assert_eq!(tree.maximum(), Some(0xa5));
    assert!(tree.delete(0xa5));
    assert_eq!(tree.maximum(), Some(0x45));
}
