use polled_futures::tree::BinaryTree;
use polled_futures::tree::BinaryTree::{Leaf, Node};

fn test_tree() -> BinaryTree<&'static str> {
    Node(
        "B",
        Box::new(Node("A", Box::new(Leaf), Box::new(Leaf))),
        Box::new(Node("C", Box::new(Leaf), Box::new(Leaf))),
    )
}

#[test]
fn len_test() {
    assert_eq!(test_tree().len(), 3);
}

#[test]
fn to_vec_test() {
    assert_eq!(test_tree().to_vec(), vec![&"A", &"B", &"C"]);
}

#[test]
fn sorted_test() {
    let mut t = test_tree().clone();
    assert!(t.sorted());

    t = Node("D", Box::new(Leaf), Box::new(t));
    assert!(!t.sorted());
}

#[test]
fn insertion_test() {
    let mut t = test_tree().clone();
    t.insert("E");
    assert!(t.sorted());
}

#[test]
fn search_test() {
    let mut t = test_tree().clone();
    t.insert("E");
    assert!(t.search(&"D") == Some(&"E"));
    assert!(t.search(&"C") == Some(&"C"));
    assert!(t.search(&"F") == None);
}

#[test]
fn empty_tree_has_nothing() {
    let t: BinaryTree<u32> = Leaf;
    assert_eq!(t.len(), 0);
    assert!(t.to_vec().is_empty());
    assert!(t.sorted());
    assert_eq!(t.search(&1), None);
}

#[test]
fn insert_equal_key_keeps_tree() {
    let mut t = test_tree();
    t.insert("B");
    assert_eq!(t.len(), 3);
    assert_eq!(t.to_vec(), vec![&"A", &"B", &"C"]);
}

#[test]
fn insert_builds_search_tree() {
    let mut t: BinaryTree<u32> = Leaf;
    for k in [5u32, 2, 8, 1, 9, 3] {
        t.insert(k);
    }
    assert_eq!(t.len(), 6);
    assert_eq!(t.to_vec(), vec![&1, &2, &3, &5, &8, &9]);
    assert!(t.sorted());
    assert_eq!(t.search(&4), Some(&5));
    assert_eq!(t.search(&10), None);
}

#[test]
fn clone_is_equal() {
    let t = test_tree();
    assert!(t.clone() == t);
}
