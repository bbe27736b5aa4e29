use binary_tree::iter::IntoIter;
use binary_tree::test::TestNode;
use binary_tree::Node;

fn new_node<T>(val: T) -> Box<TestNode<T>> {
    Box::new(TestNode::new(val))
}

fn test_tree() -> TestNode<u32> {
    TestNode {
        val: 20,
        left: Some(new_node(10)),
        right: Some(Box::new(TestNode {
            val: 30,
            left: Some(new_node(25)),
            right: None,
        })),
    }
}

#[test]
fn test_rotate() {
    let mut tt = test_tree();

    tt.rotate_left().unwrap();
    assert_eq!(*tt.value(), 30);
    assert_eq!(tt.left.as_ref().unwrap().val, 20);
    assert_eq!(tt.left.as_ref().unwrap().left.as_ref().unwrap().val, 10);
    assert_eq!(tt.left.as_ref().unwrap().right.as_ref().unwrap().val, 25);

    tt.rotate_right().unwrap();
    assert_eq!(*tt.value(), 20);
    assert_eq!(tt.left.as_ref().unwrap().val, 10);
    assert_eq!(tt.right.as_ref().unwrap().val, 30);
    assert_eq!(tt.right.as_ref().unwrap().left.as_ref().unwrap().val, 25);
}

#[test]
fn test_remove() {
    let mut tt = test_tree();
    let tn = tt.right.as_mut().unwrap().try_remove();
    assert_eq!(tn.unwrap().value(), &30);
    assert_eq!(tt.right.as_ref().unwrap().value(), &25);
    let mut tt2 = test_tree();
    {
        let right = tt2.right.as_mut().unwrap();
        right.right = Some(new_node(40));
    }
    let tn = tt2.right.as_mut().unwrap().try_remove();
    assert_eq!(tn.unwrap().value(), &30);
    assert_eq!(tt.right.as_ref().unwrap().value(), &25);
}

#[test]
fn test_stack_blow() {
    let mut pt = new_node(20);
    for _ in 0..200000 {
        let mut pt2 = new_node(20);
        let _ = pt2.insert_left(Some(pt));
        pt = pt2;
    }
    // the iterator tears the chain down with an explicit stack; a recursive
    // teardown of a chain this deep would overflow the call stack
    let _: IntoIter<TestNode<i32>> = IntoIter::new(Some(pt));
}
