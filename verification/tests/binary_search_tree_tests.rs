use algorithms::data_structures::binary_search_tree::BinarySearchTree;

#[test]
fn binary_search_tree_test_i32() {
    let mut tree = BinarySearchTree::new();
    tree.insert(0);
    assert_eq!(*tree.minimum().unwrap(), 0);
    assert_eq!(*tree.maximum().unwrap(), 0);
    tree.insert(10);
    assert_eq!(*tree.minimum().unwrap(), 0);
    assert_eq!(*tree.maximum().unwrap(), 10);
    tree.insert(-15);
    assert_eq!(*tree.minimum().unwrap(), -15);
    assert_eq!(*tree.maximum().unwrap(), 10);
}

#[test]
fn search_i32() {
    let mut tree = BinarySearchTree::new();
    tree.insert(50);
    tree.insert(10);
    tree.insert(60);
    tree.insert(-150);
    tree.insert(77);
    tree.insert(-201);

    assert!(tree.search(60));
    assert!(!tree.search(62));
}

#[test]
fn binary_search_tree_test_f64() {
    let mut tree = BinarySearchTree::new();
    tree.insert(0.);
    assert_eq!(*tree.minimum().unwrap(), 0.);
    assert_eq!(*tree.maximum().unwrap(), 0.);
    tree.insert(10.1);
    assert_eq!(*tree.minimum().unwrap(), 0.);
    assert_eq!(*tree.maximum().unwrap(), 10.1);
    tree.insert(-15.1);
    assert_eq!(*tree.minimum().unwrap(), -15.1);
    assert_eq!(*tree.maximum().unwrap(), 10.1);
}

#[test]
fn search_f64() {
    let mut tree = BinarySearchTree::new();
    tree.insert(50.1);
    tree.insert(10.1);
    tree.insert(60.1);
    tree.insert(-150.1);
    tree.insert(77.1);
    tree.insert(-201.1);

    assert!(tree.search(60.1));
    assert!(!tree.search(62.1));
}

#[test]
fn test_str() {
    let mut tree = BinarySearchTree::new();
    tree.insert("hello world");
    tree.insert("test string");
    tree.insert("rust is good");
    tree.insert("c++ is not bad");
    tree.insert("java is not my type");
    tree.insert("lololol");
    tree.insert("great!");

    assert!(tree.search("rust is good"));
    assert!(!tree.search("rust is bad"));

    assert_eq!(&"c++ is not bad", tree.minimum().unwrap());
    assert_eq!(&"test string", tree.maximum().unwrap());
}

#[test]
fn empty_tree_has_no_extremes_and_finds_nothing() {
    let tree: BinarySearchTree<i32> = BinarySearchTree::new();
    assert_eq!(None, tree.minimum());
    assert_eq!(None, tree.maximum());
    assert!(!tree.search(0));
}

#[test]
fn equal_values_are_kept() {
    let mut tree = BinarySearchTree::new();
    tree.insert(4);
    tree.insert(4);
    tree.insert(2);
    tree.insert(4);
    assert!(tree.search(4));
    assert!(tree.search(2));
    assert!(!tree.search(3));
    assert_eq!(Some(&2), tree.minimum());
    assert_eq!(Some(&4), tree.maximum());
}

#[test]
fn ascending_and_descending_insertions() {
    let mut up = BinarySearchTree::new();
    let mut down = BinarySearchTree::new();
    for i in 0..50 {
        up.insert(i);
        down.insert(49 - i);
    }
    for i in 0..50 {
        assert!(up.search(i));
        assert!(down.search(i));
    }
    assert!(!up.search(50));
    assert!(!down.search(-1));
    assert_eq!(Some(&0), up.minimum());
    assert_eq!(Some(&49), up.maximum());
    assert_eq!(Some(&0), down.minimum());
    assert_eq!(Some(&49), down.maximum());
}
