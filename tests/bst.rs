use search_trees::bst::BST;

#[test]
fn test_bst_new_and_empty() {
    let bst = BST::new();
    assert!(bst.is_empty());
}

#[test]
fn test_bst_insert_and_search() {
    let mut bst = BST::new();

    bst.insert(10);
    bst.insert(5);
    bst.insert(15);

    assert!(bst.search(10));
    assert!(bst.search(5));
    assert!(bst.search(15));

    assert!(!bst.search(20));

    assert!(!bst.is_empty());
}

#[test]
fn bst_keeps_equal_keys_on_the_right() {
    let mut bst = BST::new();
    bst.insert(7);
    bst.insert(7);
    bst.insert(3);
    assert!(bst.search(7));
    assert!(bst.search(3));
    assert!(!bst.search(4));
    assert!(!bst.is_empty());
}

#[test]
fn bst_search_on_empty_tree_finds_nothing() {
    let bst = BST::new();
    assert!(!bst.search(0));
    assert!(!bst.search(i32::MIN));
    assert!(!bst.search(i32::MAX));
}

#[test]
fn bst_insert_node_builds_a_subtree() {
    let n = BST::insert_node(None, 4);
    let n = BST::insert_node(Some(n), 2);
    let n = BST::insert_node(Some(n), 4);
    assert_eq!(n.value, 4);
    assert_eq!(n.left.as_ref().unwrap().value, 2);
    assert_eq!(n.right.as_ref().unwrap().value, 4);
    let root = Some(n);
    assert!(BST::search_node(&root, 2));
    assert!(!BST::search_node(&root, 3));
}
