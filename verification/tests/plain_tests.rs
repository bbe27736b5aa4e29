use binary_tree::iter::IntoIter;
use binary_tree::plain::PlainTree;
use binary_tree::Node;

fn test_tree() -> PlainTree<u32> {
    PlainTree {
        val: 20,
        left: Some(Box::new(PlainTree::new(10))),
        right: Some(Box::new(PlainTree {
            val: 30,
            left: Some(Box::new(PlainTree::new(25))),
            right: None,
        })),
    }
}

#[test]
fn plain_rotate() {
    let mut tt = test_tree();

    tt.rotate_left().unwrap();
    assert_eq!(*tt.value(), 30);
    assert_eq!(tt.left.as_ref().unwrap().val, 20);
    assert_eq!(tt.left.as_ref().unwrap().left.as_ref().unwrap().val, 10);
    assert_eq!(tt.left.as_ref().unwrap().right.as_ref().unwrap().val, 25);

    tt.rotate_right().unwrap();
    assert_eq!(*tt.value(), 20);
    assert_eq!(tt.left.as_ref().unwrap().val, 10);
    assert_eq!(tt.right.as_ref().unwrap().val, 30);
    assert_eq!(tt.right.as_ref().unwrap().left.as_ref().unwrap().val, 25);
}

#[test]
fn plain_stack_blow() {
    let mut pt = Box::new(PlainTree::new(20));
    for _ in 0..200000 {
        let mut pt2 = Box::new(PlainTree::new(20));
        let _ = pt2.insert_left(Some(pt));
        pt = pt2;
    }
    // the iterator tears the chain down with an explicit stack; a recursive
    // teardown of a chain this deep would overflow the call stack
    let _: IntoIter<PlainTree<i32>> = IntoIter::new(Some(pt));
}

#[test]
fn rotate_leaf_fails() {
    let mut t = PlainTree::new(1);
    assert!(t.rotate_left().is_err());
    assert!(t.rotate_right().is_err());
    assert_eq!(t.val, 1);
}
