use abtree::AVL;
use abtree::BTree;

fn drain_forward_avl(t: AVL) -> Vec<(u64, u64)> {
    let mut out: Vec<(u64, u64)> = Vec::new();
    let mut it = t.into_iter();
    while let Some(p) = it.next() {
        out.push(p);
    }
    out
}

fn drain_forward_btree(t: BTree) -> Vec<(u64, u64)> {
    let mut out: Vec<(u64, u64)> = Vec::new();
    let mut it = t.into_iter();
    while let Some(p) = it.next() {
        out.push(p);
    }
    out
}

#[test]
fn avl_len() {
    let data = vec![
        (8, 8),
        (12, 12),
        (18, 18),
        (19, 19),
        (20, 20),
        (21, 21),
        (22, 22),
        (23, 23),
    ];
    let dl = data.len();
    let avl = AVL::from_iter(data);
    assert_eq!(avl.len(), dl);
}

#[test]
fn btree_len() {
    let data = vec![
        (8, 8),
        (12, 12),
        (18, 18),
        (19, 19),
        (20, 20),
        (21, 21),
        (22, 22),
        (23, 23),
    ];
    let dl = data.len();
    let btr = BTree::from_iter(data);
    assert_eq!(btr.len(), dl);
    assert!(btr.contains(&8));
    assert!(!btr.contains(&80));
}

#[test]
fn btree_set() {
    let data = vec![(8, 8), (12, 12)];
    let mut btr = BTree::from_iter(data);
    btr.set(8, 91);
    btr.set(10, 100);
    assert_eq!(btr.len(), 3);
    let v = drain_forward_btree(btr);
    assert_eq!(v, vec![(8, 91), (10, 100), (12, 12)]);

    let mut btr = BTree::new(3);
    for (k, v) in [(1, 1), (2, 2), (3, 3)] {
        btr.insert(k, v);
    }
    assert_eq!(btr.get(&2), Some(&2));
    assert_eq!(btr.len(), 3);
    btr.insert(2, 20);
    assert_eq!(btr.get(&2), Some(&20));
    assert_eq!(btr.len(), 3);
}

#[test]
fn btree_rm() {
    let data = vec![
        (8, 8),
        (12, 12),
        (18, 18),
        (19, 19),
        (20, 20),
        (21, 21),
        (22, 22),
        (23, 23),
    ];
    let mut btr = BTree::new(5);
    for (k, v) in data {
        btr.insert(k, v);
    }
    assert_eq!(btr.remove(&19), Some(19));
    assert_eq!(btr.remove(&20), Some(20));
    assert_eq!(btr.remove(&30), None);

    let v = drain_forward_btree(btr);
    assert_eq!(
        v,
        vec![(8, 8), (12, 12), (18, 18), (21, 21), (22, 22), (23, 23)]
    );
}

#[test]
fn btree_rm2() {
    let data = vec![
        (8, 8),
        (12, 12),
        (18, 18),
        (19, 19),
        (20, 20),
        (21, 21),
        (22, 22),
        (23, 23),
    ];
    let mut btr = BTree::new(3);
    for (k, v) in data {
        btr.insert(k, v);
    }
    assert_eq!(btr.remove(&19), Some(19));
    assert_eq!(btr.remove(&20), Some(20));
    assert_eq!(btr.remove(&30), None);

    let v = drain_forward_btree(btr);
    assert_eq!(
        v,
        vec![(8, 8), (12, 12), (18, 18), (21, 21), (22, 22), (23, 23)]
    );
}

#[test]
fn btree_rm3() {
    let data = vec![
        (8, 8),
        (12, 12),
        (18, 18),
        (19, 19),
        (20, 20),
        (21, 21),
        (22, 22),
        (23, 23),
    ];
    let data2 = vec![(8, 8), (12, 12), (18, 18), (21, 21), (22, 22), (23, 23)];

    let mut btr = BTree::new(3);
    for (k, v) in data {
        btr.insert(k, v);
    }
    assert_eq!(btr.remove(&19), Some(19));
    assert_eq!(btr.remove(&20), Some(20));
    assert_eq!(btr.remove(&30), None);

    let v = drain_forward_btree(btr);
    assert_eq!(v, data2);
}

#[test]
fn btree_empty_iter() {
    let b: BTree = BTree::new(3);
    assert_eq!(b.iter().next(), None);
    assert_eq!(b.iter().next_back(), None);
}

#[test]
fn avl_empty_iter() {
    let a: AVL = AVL::new();
    assert_eq!(a.iter().next(), None);
    assert_eq!(a.iter().next_back(), None);
}

#[test]
fn btree_empty_into_iter() {
    let b: BTree = BTree::new(3);
    let mut iter = b.into_iter();
    assert_eq!(iter.next(), None);
    assert_eq!(iter.next_back(), None);
}

#[test]
fn avl_empty_into_iter() {
    let a: AVL = AVL::new();
    let mut iter = a.into_iter();
    assert_eq!(iter.next(), None);
    assert_eq!(iter.next_back(), None);
}

#[test]
fn avl_two_ended_iteration() {
    let mut t = AVL::new();
    t.insert(0, 0);
    t.insert(1, 1);
    t.insert(2, 2);
    let mut iter = t.iter();
    assert_eq!(iter.next(), Some((0, 0)));
    assert_eq!(iter.next(), Some((1, 1)));
    assert_eq!(iter.next_back(), Some((2, 2)));
    assert_eq!(iter.next(), None);
    assert_eq!(iter.next_back(), None);
}

#[test]
fn avl_peek_root() {
    let mut t = AVL::new();
    assert_eq!(t.peek_root(), None);
    t.insert(0, 0);
    t.insert(1, 1);
    t.insert(2, 2);
    assert_eq!(t.peek_root(), Some((1, 1)));
}

#[test]
fn avl_stays_balanced() {
    let mut t = AVL::new();
    assert!(t.is_balanced_tree());
    let mut k: u64 = 0;
    while k < 40 {
        t.insert(k, k * 10);
        assert!(t.is_balanced_tree());
        k += 1;
    }
    let mut k: u64 = 0;
    while k < 40 {
        assert_eq!(t.remove(&k), Some(k * 10));
        assert!(t.is_balanced_tree());
        k += 2;
    }
    assert_eq!(t.len(), 20);
}

#[test]
fn avl_round_trip_empties() {
    let keys: Vec<u64> = vec![5, 3, 9, 1, 7, 2, 8, 6, 4, 0];
    let mut t = AVL::new();
    for k in &keys {
        t.insert(*k, k + 100);
    }
    assert!(!t.is_empty());
    for k in &keys {
        assert_eq!(t.remove(k), Some(k + 100));
    }
    assert!(t.is_empty());
    assert_eq!(t.len(), 0);
    assert_eq!(t.iter().next(), None);
}

#[test]
fn btree_round_trip_empties() {
    let keys: Vec<u64> = vec![15, 3, 9, 21, 7, 2, 18, 6, 4, 30, 11, 12];
    let mut t = BTree::new(4);
    for k in &keys {
        t.insert(*k, k + 100);
    }
    assert!(!t.is_empty());
    for k in &keys {
        assert_eq!(t.remove(k), Some(k + 100));
    }
    assert!(t.is_empty());
    assert_eq!(t.len(), 0);
    assert_eq!(t.iter().next(), None);
}

#[test]
fn avl_overwrite_keeps_len() {
    let mut t = AVL::new();
    t.insert(7, 1);
    t.insert(3, 3);
    let before = t.len();
    t.insert(7, 2);
    assert_eq!(t.len(), before);
    assert_eq!(t.get(&7), Some(&2));
}

#[test]
fn btree_overwrite_keeps_len() {
    let mut t = BTree::new(3);
    t.insert(7, 1);
    t.insert(3, 3);
    let before = t.len();
    t.insert(7, 2);
    assert_eq!(t.len(), before);
    assert_eq!(t.get(&7), Some(&2));
}

#[test]
fn avl_iter_convergence_interleaved() {
    let mut t = AVL::new();
    for k in [4, 1, 5, 2, 3] {
        t.insert(k, k);
    }
    let mut iter = t.iter();
    assert_eq!(iter.next(), Some((1, 1)));
    assert_eq!(iter.next_back(), Some((5, 5)));
    assert_eq!(iter.next(), Some((2, 2)));
    assert_eq!(iter.next_back(), Some((4, 4)));
    assert_eq!(iter.next(), Some((3, 3)));
    assert_eq!(iter.next(), None);
    assert_eq!(iter.next_back(), None);
}

#[test]
fn btree_iter_convergence_interleaved() {
    let mut t = BTree::new(3);
    for k in [4, 1, 5, 2, 3, 6] {
        t.insert(k, k);
    }
    let mut iter = t.iter();
    assert_eq!(iter.next_back(), Some((6, 6)));
    assert_eq!(iter.next(), Some((1, 1)));
    assert_eq!(iter.next_back(), Some((5, 5)));
    assert_eq!(iter.next_back(), Some((4, 4)));
    assert_eq!(iter.next(), Some((2, 2)));
    assert_eq!(iter.next(), Some((3, 3)));
    assert_eq!(iter.next(), None);
    assert_eq!(iter.next_back(), None);
}

#[test]
fn btree_pop_extremes() {
    let mut b = BTree::new(4);
    let data = [(1, 1), (2, 2), (3, 3)];
    for (k, v) in data {
        b.insert(k, v);
    }
    assert_eq!(b.pop_min(), Some((1, 1)));
    assert_eq!(b.pop_max(), Some((3, 3)));
    assert_eq!(b.len(), 1);
    assert_eq!(b.pop_max(), Some((2, 2)));
    assert_eq!(b.pop_min(), None);
    assert_eq!(b.pop_max(), None);
}

#[test]
fn avl_sorted_iteration() {
    let keys: Vec<u64> = vec![12, 5, 30, 1, 22, 9, 40, 3, 17];
    let mut t = AVL::new();
    for k in &keys {
        t.insert(*k, *k);
    }
    let mut sorted = keys.clone();
    sorted.sort();
    let got = drain_forward_avl(t);
    let want: Vec<(u64, u64)> = sorted.iter().map(|k| (*k, *k)).collect();
    assert_eq!(got, want);
}

#[test]
fn btree_sorted_iteration_even_order() {
    let keys: Vec<u64> = vec![12, 5, 30, 1, 22, 9, 40, 3, 17, 25, 8, 2];
    let mut t = BTree::new(4);
    for k in &keys {
        t.insert(*k, *k);
    }
    let mut sorted = keys.clone();
    sorted.sort();
    let got = drain_forward_btree(t);
    let want: Vec<(u64, u64)> = sorted.iter().map(|k| (*k, *k)).collect();
    assert_eq!(got, want);
}

#[test]
fn btree_deep_mixed_removals() {
    let mut t = BTree::new(3);
    let mut k: u64 = 1;
    while k <= 20 {
        t.insert(k, k);
        k += 1;
    }
    let mut k: u64 = 2;
    while k <= 20 {
        assert_eq!(t.remove(&k), Some(k));
        k += 2;
    }
    assert_eq!(t.remove(&2), None);
    let got = drain_forward_btree(t);
    let want: Vec<(u64, u64)> = vec![
        (1, 1),
        (3, 3),
        (5, 5),
        (7, 7),
        (9, 9),
        (11, 11),
        (13, 13),
        (15, 15),
        (17, 17),
        (19, 19),
    ];
    assert_eq!(got, want);
}

#[test]
fn avl_absent_key_is_empty_answer() {
    let mut t = AVL::new();
    t.insert(10, 10);
    assert_eq!(t.get(&11), None);
    assert!(!t.contains(&11));
    assert_eq!(t.remove(&11), None);
    assert_eq!(t.len(), 1);
}

#[test]
fn clear_resets_both() {
    let mut a = AVL::new();
    a.insert(1, 1);
    a.insert(2, 2);
    a.clear();
    assert_eq!(a.len(), 0);
    assert!(a.is_empty());

    let mut b = BTree::new(5);
    b.insert(1, 1);
    b.insert(2, 2);
    b.clear();
    assert_eq!(b.len(), 0);
    assert!(b.is_empty());
    b.insert(3, 3);
    assert_eq!(b.get(&3), Some(&3));
}
