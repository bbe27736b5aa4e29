use binary_tree::iter::IntoIter;
use binary_tree::iter::Iter;
use binary_tree::test::TestNode;

#[test]
fn iteration() {
    let mut ct = Box::new(TestNode::new(7));
    let mut ct_l = Box::new(TestNode::new(8));
    let _ = ct_l.insert_right(Some(Box::new(TestNode::new(12))));
    let _ = ct.insert_left(Some(ct_l));
    let _ = ct.insert_right(Some(Box::new(TestNode::new(5))));

    {
        let mut it: Iter<TestNode<i32>> = Iter::new(Some(&*ct));
        let mut vals = Vec::new();
        while let Some(v) = it.next() {
            vals.push(*v);
        }
        assert_eq!(vals, [8, 12, 7, 5]);
    }

    let mut node_mi: IntoIter<TestNode<i32>> = IntoIter::new(Some(ct));
    let mut vals = Vec::new();
    while let Some(v) = node_mi.next() {
        vals.push(v);
    }
    assert_eq!(vals, [8, 12, 7, 5]);
}
