use dsgym_rs::avltree::AVLTree;

#[test]
fn avltree_basics() {
    let mut t = AVLTree::new();
    t.add(1);
    assert_eq!(t.is_balanced(), true);
    t.add(5);
    assert_eq!(t.is_balanced(), true);
    t.add(3);
    assert_eq!(t.is_balanced(), true);
    t.add(2);
    assert_eq!(t.is_balanced(), true);
    t.add(4);
    assert_eq!(t.is_balanced(), true);
    assert_eq!(t.contains(1), true);
    assert_eq!(t.contains(2), true);
    assert_eq!(t.contains(3), true);
    assert_eq!(t.contains(4), true);
    assert_eq!(t.contains(5), true);
    assert_eq!(t.contains(6), false);
    assert_eq!(t.contains(0), false);
}

#[test]
fn avl_traverse_is_sorted() {
    let mut t = AVLTree::new();
    for k in [50, 20, 80, 10, 30, 70, 90, 25, 35, 5] {
        t.add(k);
    }
    let keys: Vec<i32> = t.traverse().into_iter().copied().collect();
    assert_eq!(keys, vec![5, 10, 20, 25, 30, 35, 50, 70, 80, 90]);
}

#[test]
fn avl_duplicate_add_keeps_the_set() {
    let mut t = AVLTree::new();
    t.add(2);
    t.add(1);
    t.add(3);
    t.add(2);
    assert!(t.is_balanced());
    let keys: Vec<i32> = t.traverse().into_iter().copied().collect();
    assert_eq!(keys, vec![1, 2, 3]);
}

#[test]
fn avl_stays_balanced_on_ascending_input() {
    let mut t = AVLTree::new();
    for k in 0..1000 {
        t.add(k);
        assert!(t.is_balanced());
    }
    for k in 0..1000 {
        assert!(t.contains(k));
    }
    assert!(!t.contains(1000));
    assert!(!t.contains(-1));
}
