use ordered_tree::Tree;

fn values<T: Clone>(v: Vec<&T>) -> Vec<T> {
    v.into_iter().cloned().collect()
}

fn build(keys: &[i32]) -> Tree<i32> {
    let mut t = Tree::new();
    for k in keys {
        t.insert(*k);
    }
    t
}

#[test]
fn example_traversals_of_five_keys() {
    let t = build(&[5, 3, 8, 1, 4]);
    assert_eq!(values(t.inorder()), vec![1, 3, 4, 5, 8]);
    assert_eq!(values(t.preorder()), vec![5, 3, 1, 4, 8]);
    assert_eq!(values(t.postorder()), vec![1, 4, 3, 8, 5]);
}

#[test]
fn example_find_and_insert_on_new_tree() {
    let mut t: Tree<i32> = Tree::new();
    assert!(!t.find(&42));
    assert!(t.insert(42));
    assert!(t.find(&42));
    assert!(!t.insert(42));
}

#[test]
fn example_new_with_value() {
    let mut t = Tree::new_with_value(10);
    assert!(!t.insert(10));
    assert_eq!(t.preorder(), vec![&10]);
}

#[test]
fn traversals_repeat_on_unchanged_tree() {
    let t = build(&[7, 2, 9, 1, 5, 8]);
    let first = t.inorder();
    let second = t.inorder();
    assert_eq!(first, second);
    assert_eq!(t.preorder(), t.preorder());
    assert_eq!(t.postorder(), t.postorder());
}

#[test]
fn find_reports_exactly_inserted_keys() {
    let keys = [50, 20, 80, 10, 30, 70, 90, 25, 35];
    let t = build(&keys);
    for k in keys.iter() {
        assert!(t.find(k));
    }
    for k in [0, 15, 21, 40, 75, 100, -5] {
        assert!(!t.find(&k));
    }
}

#[test]
fn find_on_keys_inserted_in_reverse_order() {
    let t = build(&[9, 8, 7, 6, 5, 4, 3, 2, 1]);
    for k in 1..10 {
        assert!(t.find(&k));
    }
    assert!(!t.find(&0));
    assert!(!t.find(&10));
}

#[test]
fn repeated_insert_reports_duplicate_and_keeps_traversals() {
    let mut t = build(&[4, 2, 6]);
    assert!(t.insert(5));
    let pre = values(t.preorder());
    let ino = values(t.inorder());
    let post = values(t.postorder());
    for _ in 0..3 {
        assert!(!t.insert(5));
    }
    assert!(!t.insert(4));
    assert!(!t.insert(2));
    assert_eq!(values(t.preorder()), pre);
    assert_eq!(values(t.inorder()), ino);
    assert_eq!(values(t.postorder()), post);
}

#[test]
fn inorder_is_sorted_distinct_keys() {
    let keys = [13, 7, 21, 7, 3, 13, 30, 1, 21, 18];
    let t = build(&keys);
    assert_eq!(values(t.inorder()), vec![1, 3, 7, 13, 18, 21, 30]);
}

#[test]
fn traversal_lengths_equal_distinct_count() {
    let keys = [6, 6, 2, 9, 2, 1, 9, 4];
    let t = build(&keys);
    assert_eq!(t.preorder().len(), 5);
    assert_eq!(t.inorder().len(), 5);
    assert_eq!(t.postorder().len(), 5);
}

#[test]
fn traversals_hold_same_values() {
    let t = build(&[40, 20, 60, 10, 30, 50, 70, 35]);
    let mut pre = values(t.preorder());
    let mut post = values(t.postorder());
    let ino = values(t.inorder());
    pre.sort();
    post.sort();
    assert_eq!(pre, ino);
    assert_eq!(post, ino);
    assert_eq!(values(t.preorder()), vec![40, 20, 10, 30, 35, 60, 50, 70]);
    assert_eq!(values(t.postorder()), vec![10, 35, 30, 20, 50, 70, 60, 40]);
}

#[test]
fn empty_tree_traversals_are_empty() {
    let t: Tree<i32> = Tree::new();
    assert!(t.preorder().is_empty());
    assert!(t.inorder().is_empty());
    assert!(t.postorder().is_empty());
}

#[test]
fn first_insert_fills_empty_root() {
    let mut t: Tree<u64> = Tree::new();
    assert!(t.insert(3));
    assert_eq!(t.preorder(), vec![&3]);
    assert_eq!(t.postorder(), vec![&3]);
    assert!(t.find(&3));
    assert!(!t.find(&4));
}

#[test]
fn sorted_input_builds_right_spine() {
    let t = build(&[1, 2, 3, 4, 5]);
    assert_eq!(values(t.preorder()), vec![1, 2, 3, 4, 5]);
    assert_eq!(values(t.inorder()), vec![1, 2, 3, 4, 5]);
    assert_eq!(values(t.postorder()), vec![5, 4, 3, 2, 1]);
}

#[test]
fn extreme_keys() {
    let t = build(&[0, i32::MAX, i32::MIN, -1, 1]);
    assert_eq!(values(t.inorder()), vec![i32::MIN, -1, 0, 1, i32::MAX]);
    assert!(t.find(&i32::MIN));
    assert!(t.find(&i32::MAX));
    assert!(!t.find(&2));
}

#[test]
fn string_keys() {
    let mut t = Tree::new_with_value(String::from("m"));
    assert!(t.insert(String::from("c")));
    assert!(t.insert(String::from("x")));
    assert!(t.insert(String::from("a")));
    assert!(!t.insert(String::from("c")));
    assert!(t.find(&String::from("a")));
    assert!(!t.find(&String::from("b")));
    assert_eq!(values(t.inorder()), vec!["a", "c", "m", "x"]);
    assert_eq!(values(t.preorder()), vec!["m", "c", "a", "x"]);
    assert_eq!(values(t.postorder()), vec!["a", "c", "x", "m"]);
}

#[test]
fn new_with_value_then_children() {
    let mut t = Tree::new_with_value(10);
    assert!(t.insert(5));
    assert!(t.insert(15));
    assert!(t.insert(12));
    assert_eq!(values(t.preorder()), vec![10, 5, 15, 12]);
    assert_eq!(values(t.inorder()), vec![5, 10, 12, 15]);
    assert_eq!(values(t.postorder()), vec![5, 12, 15, 10]);
}
