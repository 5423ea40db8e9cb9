use search_trees::avl::{AVLNode, AVL};

/// Writes a subtree as `(left key:height right)`, `.` for an absent subtree.
fn render(t: &Option<Box<AVLNode>>) -> String {
    match t {
        None => ".".to_string(),
        Some(n) => format!("({} {}:{} {})", render(&n.left), n.value, n.height, render(&n.right)),
    }
}

/// Asserts order, balance and cached heights; returns the height and the keys in order.
fn validate(t: &Option<Box<AVLNode>>) -> (i32, Vec<i32>) {
    match t {
        None => (0, Vec::new()),
        Some(n) => {
            let (hl, mut kl) = validate(&n.left);
            let (hr, kr) = validate(&n.right);
            assert!((hl - hr).abs() <= 1, "unbalanced at {}", n.value);
            assert_eq!(n.height, 1 + hl.max(hr), "stale height at {}", n.value);
            assert!(kl.iter().all(|k| *k < n.value));
            assert!(kr.iter().all(|k| *k > n.value));
            kl.push(n.value);
            kl.extend(kr);
            (n.height, kl)
        }
    }
}

fn build(keys: &[i32]) -> AVL {
    let mut t = AVL::new();
    for k in keys {
        t.insert(*k);
    }
    t
}

fn leaf(v: i32) -> Option<Box<AVLNode>> {
    Some(Box::new(AVLNode { value: v, left: None, right: None, height: 1 }))
}

#[test]
fn avl_empty_tree_finds_nothing() {
    let t = AVL::new();
    assert!(t.root().is_none());
    for k in [i32::MIN, -1, 0, 1, 42, i32::MAX] {
        assert!(!t.search(k));
    }
}

#[test]
fn avl_increasing_keys_rotate_left_once() {
    let t = build(&[10, 20, 30]);
    let root = t.root().as_ref().unwrap();
    assert_eq!(root.value, 20);
    assert_eq!(root.height, 2);
    assert_eq!(root.left.as_ref().unwrap().value, 10);
    assert_eq!(root.right.as_ref().unwrap().value, 30);
    assert_eq!(render(t.root()), "((. 10:1 .) 20:2 (. 30:1 .))");
}

#[test]
fn avl_left_right_case() {
    let t = build(&[30, 10, 20]);
    assert_eq!(render(t.root()), "((. 10:1 .) 20:2 (. 30:1 .))");
}

#[test]
fn avl_right_left_case() {
    let t = build(&[10, 30, 20]);
    assert_eq!(render(t.root()), "((. 10:1 .) 20:2 (. 30:1 .))");
}

#[test]
fn avl_decreasing_keys_rotate_right_once() {
    let t = build(&[30, 20, 10]);
    assert_eq!(render(t.root()), "((. 10:1 .) 20:2 (. 30:1 .))");
}

#[test]
fn avl_increasing_sequence_stays_balanced() {
    let t = build(&[1, 2, 3, 4, 5, 6, 7]);
    let (h, keys) = validate(t.root());
    // ceil(log2(7 + 1)) + 1 == 4
    assert!(h <= 4);
    assert_eq!(h, 3);
    assert_eq!(keys, vec![1, 2, 3, 4, 5, 6, 7]);
    assert_eq!(t.root().as_ref().unwrap().value, 4);
}

#[test]
fn avl_five_increasing_keys() {
    let t = build(&[10, 20, 30, 40, 50]);
    assert_eq!(render(t.root()), "((. 10:1 .) 20:3 ((. 30:1 .) 40:2 (. 50:1 .)))");
}

#[test]
fn avl_duplicate_insert_changes_nothing() {
    let once = build(&[50, 20, 80, 10, 30, 70]);
    let mut twice = build(&[50, 20, 80, 10, 30, 70]);
    twice.insert(30);
    twice.insert(50);
    assert_eq!(render(once.root()), render(twice.root()));
    let a = build(&[5, 3, 8, 3]);
    let b = build(&[5, 3, 8]);
    assert_eq!(render(a.root()), render(b.root()));
}

#[test]
fn avl_membership_matches_insertions() {
    let keys = [15, -4, 99, 0, 7, 7, -30, 63, 22, i32::MIN, i32::MAX];
    let t = build(&keys);
    for k in keys {
        assert!(t.search(k));
    }
    for k in [1, -5, 100, 8, 21, i32::MIN + 1, i32::MAX - 1] {
        assert!(!t.search(k));
    }
}

#[test]
fn avl_invariants_hold_after_each_insertion() {
    let mut t = AVL::new();
    let mut x: u32 = 12345;
    let mut inserted: Vec<i32> = Vec::new();
    for _ in 0..500 {
        x = x.wrapping_mul(1103515245).wrapping_add(12345);
        let k = ((x >> 8) % 1000) as i32 - 500;
        t.insert(k);
        if !inserted.contains(&k) {
            inserted.push(k);
        }
        let (h, keys) = validate(t.root());
        let mut expected = inserted.clone();
        expected.sort();
        assert_eq!(keys, expected);
        // An AVL tree of n keys is lower than 1.45 * log2(n + 2).
        let n = keys.len() as f64;
        assert!((h as f64) < 1.45 * (n + 2.0).log2());
    }
}

#[test]
fn avl_height_and_balance_read_cached_heights() {
    assert_eq!(AVL::height(&None), 0);
    assert_eq!(AVL::balance(&None), 0);
    let t = build(&[2, 1, 3, 4]);
    assert_eq!(AVL::height(t.root()), 3);
    assert_eq!(AVL::balance(t.root()), -1);
    assert_eq!(AVL::height(&leaf(9)), 1);
    assert_eq!(AVL::balance(&leaf(9)), 0);
}

#[test]
fn avl_rotate_right_promotes_left_child() {
    let mid = AVLNode { value: 2, left: leaf(1), right: None, height: 2 };
    let top = Box::new(AVLNode { value: 3, left: Some(Box::new(mid)), right: None, height: 3 });
    let r = Some(AVL::rotate_right(top));
    assert_eq!(render(&r), "((. 1:1 .) 2:2 (. 3:1 .))");
}

#[test]
fn avl_rotate_left_promotes_right_child() {
    let mid = AVLNode { value: 2, left: None, right: leaf(3), height: 2 };
    let top = Box::new(AVLNode { value: 1, left: None, right: Some(Box::new(mid)), height: 3 });
    let r = Some(AVL::rotate_left(top));
    assert_eq!(render(&r), "((. 1:1 .) 2:2 (. 3:1 .))");
}

#[test]
fn avl_rotations_move_inner_subtree() {
    let x = AVLNode { value: 20, left: leaf(10), right: leaf(25), height: 2 };
    let y = Box::new(AVLNode { value: 30, left: Some(Box::new(x)), right: leaf(40), height: 3 });
    let r = AVL::rotate_right(y);
    assert_eq!(render(&Some(r)), "((. 10:1 .) 20:3 ((. 25:1 .) 30:2 (. 40:1 .)))");
}

#[test]
fn avl_insert_at_on_subtrees() {
    let r = AVL::insert_at(None, 5);
    assert_eq!(render(&r), "(. 5:1 .)");
    let r = AVL::insert_at(r, 5);
    assert_eq!(render(&r), "(. 5:1 .)");
    let r = AVL::insert_at(r, 4);
    let r = AVL::insert_at(r, 3);
    assert_eq!(render(&r), "((. 3:1 .) 4:2 (. 5:1 .))");
    assert!(AVL::search_at(&r, 3));
    assert!(!AVL::search_at(&r, 6));
}
