use binary_tree::count::exp_floor_log;
use binary_tree::count::is_power;
use binary_tree::count::CountNode;
use binary_tree::count::CountTree;
use binary_tree::count::Shrinker;
use binary_tree::test::compute_level;
use binary_tree::test::Level;

fn test_nodes() -> Box<CountNode<u32>> {
    let mut cn = Box::new(CountNode::new(7));
    cn.insert_before(Box::new(CountNode::new(8)));
    cn.insert_before(Box::new(CountNode::new(12)));
    let _ = cn.insert_right(Some(Box::new(CountNode::new(5))));
    cn
}

#[test]
fn custom() {
    let ct = CountTree::from_node(test_nodes());
    assert_eq!(ct.get(0), Some(&8));
    assert_eq!(ct.get(1), Some(&12));
    assert_eq!(ct.get(2), Some(&7));
    assert_eq!(ct.get(3), Some(&5));
    assert_eq!(ct.get(4), None);
    let mut ct = ct;
    let _ = ct.get_mut(3, 100);
    assert_eq!(ct.get(3), Some(&100));
}

#[test]
fn counting() {
    let cn = test_nodes();
    assert_eq!(cn.lcount(), 2);
    assert_eq!(cn.rcount(), 1);
    assert_eq!(cn.count(), 4);
    assert_eq!(cn.height(), 2);
}

#[test]
fn rebalance() {
    let mut cn = test_nodes();
    assert_eq!(cn.balance_factor(), 1);
    let _ = cn.detach_right();
    cn.rebalance();
    assert_eq!(cn.balance_factor(), 0);
    assert_eq!(compute_level(&*cn, 1), Level::Balanced(2));
    let ct = CountTree::from_node(cn);
    assert_eq!(ct.get(0), Some(&8));
    assert_eq!(ct.get(1), Some(&12));
    assert_eq!(ct.get(2), Some(&7));
    assert_eq!(ct.get(3), None);
}

#[test]
fn insert() {
    let mut ct = CountTree::new();
    assert_eq!(ct.get(0), None);
    ct.insert(0, 2);
    ct.insert(0, 3);
    ct.insert(0, 4);
    ct.insert(0, 5);
    ct.insert(0, 6);
    assert_eq!(ct.get(0), Some(&6));
    assert_eq!(ct.get(1), Some(&5));
    assert_eq!(ct.get(2), Some(&4));
    ct.insert(0, 7);
    assert_eq!(ct.get(4), Some(&3));
    assert_eq!(ct.get(5), Some(&2));
    assert_eq!(ct.root().unwrap().height(), 2);
    assert_eq!(compute_level(ct.root().unwrap(), 1), Level::Balanced(3));
    ct.insert(6, 1);
    assert_eq!(ct.get(6), Some(&1));
    assert_eq!(ct.root().unwrap().height(), 3);
    assert_eq!(compute_level(ct.root().unwrap(), 1), Level::Balanced(4));
}

#[test]
fn from_iter() {
    let ct: CountTree<i32> = CountTree::from_vec((0..63).collect());
    let root = ct.root().unwrap();
    assert_eq!(root.height(), 5);
    assert_eq!(compute_level(root, 0), Level::Balanced(6));

    let ct: CountTree<i32> = CountTree::from_vec((0..94).collect());
    let root = ct.root().unwrap();
    assert_eq!(root.balance_factor(), -1);
    assert_eq!(root.height(), 6);
    assert_eq!(compute_level(root, 1), Level::Balanced(7));
}

#[test]
fn count_remove() {
    let mut ct: CountTree<i32> = CountTree::from_vec((0..94).collect());
    for i in 0..20 {
        assert_eq!(ct.remove(64), 64 + i);
        assert!(compute_level(ct.root().unwrap(), 1).is_balanced());
    }
}

#[test]
fn empty_tree() {
    let mut ct: CountTree<i32> = CountTree::new();
    assert_eq!(ct.len(), 0);
    assert!(ct.is_empty());
    assert_eq!(ct.get(0), None);
    assert_eq!(ct.pop_front(), None);
    assert_eq!(ct.pop_back(), None);
}

#[test]
fn push_pop_ends() {
    let mut ct: CountTree<i32> = CountTree::new();
    ct.push_front(20);
    ct.push_front(10);
    assert_eq!(ct.len(), 2);
    assert_eq!(ct.pop_back(), Some(20));
    assert_eq!(ct.pop_front(), Some(10));
    assert_eq!(ct.pop_back(), None);
}

#[test]
fn insert_shifts_neighbors() {
    let mut ct: CountTree<i32> = CountTree::from_vec(vec![1, 2, 3, 4]);
    ct.insert(2, 9);
    assert_eq!(ct.get(1), Some(&2));
    assert_eq!(ct.get(2), Some(&9));
    assert_eq!(ct.get(3), Some(&3));
    assert_eq!(ct.len(), 5);
    assert_eq!(ct.remove(2), 9);
    assert_eq!(ct.get(1), Some(&2));
    assert_eq!(ct.get(2), Some(&3));
    assert_eq!(ct.len(), 4);
}

#[test]
fn get_mut_keeps_shape() {
    let mut ct: CountTree<i32> = CountTree::from_vec((0..10).collect());
    let h = ct.root().unwrap().height();
    let old = ct.get_mut(4, 77);
    assert_eq!(old, Some(4));
    assert_eq!(ct.get(4), Some(&77));
    assert_eq!(ct.len(), 10);
    assert_eq!(ct.root().unwrap().height(), h);
    assert_eq!(ct.get_mut(10, 5), None);
    assert_eq!(ct.len(), 10);
}

#[test]
fn tree_iterators() {
    let ct: CountTree<i32> = CountTree::from_vec(vec![5, 1, 4, 2]);
    let mut it = ct.iter();
    assert_eq!(it.size_hint(), (4, Some(4)));
    let mut seen = Vec::new();
    while let Some(v) = it.next() {
        seen.push(*v);
    }
    assert_eq!(seen, vec![5, 1, 4, 2]);

    let mut it = ct.into_iter();
    assert_eq!(it.size_hint(), (4, Some(4)));
    let mut seen = Vec::new();
    while let Some(v) = it.next() {
        seen.push(v);
    }
    assert_eq!(seen, vec![5, 1, 4, 2]);
}

#[test]
fn clear_empties() {
    let mut ct: CountTree<i32> = CountTree::from_vec((0..100).collect());
    assert_eq!(ct.len(), 100);
    ct.clear();
    assert_eq!(ct.len(), 0);
    assert!(ct.is_empty());
}

#[test]
fn bulk_matches_input() {
    let input: Vec<i32> = (0..137).rev().collect();
    let ct = CountTree::from_vec(input.clone());
    assert_eq!(ct.len(), 137);
    // complete-binary-tree height: floor(log2(137)) == 7
    assert_eq!(ct.root().unwrap().height(), 7);
    assert!(compute_level(ct.root().unwrap(), 1).is_balanced());
    let mut it = ct.iter();
    for x in &input {
        assert_eq!(it.next(), Some(x));
    }
    assert_eq!(it.next(), None);
}

#[test]
fn power_helpers() {
    assert!(is_power(1));
    assert!(is_power(2));
    assert!(is_power(4));
    assert!(is_power(1024));
    assert!(!is_power(0));
    assert!(!is_power(3));
    assert!(!is_power(6));
    assert_eq!(exp_floor_log(0), 0);
    assert_eq!(exp_floor_log(1), 1);
    assert_eq!(exp_floor_log(5), 4);
    assert_eq!(exp_floor_log(6), 4);
    assert_eq!(exp_floor_log(8), 8);
    assert_eq!(exp_floor_log(95), 64);
}

#[test]
fn shrinker_candidates() {
    let source = vec![3, 1, 4, 1, 5];
    let ct: CountTree<usize> = CountTree::from_vec(source.clone());
    let mut sh = Shrinker::new(&ct);
    let first = sh.next().expect("root value candidate");
    assert_eq!(first.len(), 1);
    let second = sh.next().expect("left subtree candidate");
    assert!(second.len() < 5);
    let third = sh.next().expect("right subtree candidate");
    assert!(third.len() < 5);
    assert!(sh.next().is_none());

    // left candidate + root value + right candidate reassemble the source
    let mut reassembled: Vec<usize> = Vec::new();
    let mut it = second.iter();
    while let Some(v) = it.next() {
        reassembled.push(*v);
    }
    reassembled.push(*first.get(0).unwrap());
    let mut it = third.iter();
    while let Some(v) = it.next() {
        reassembled.push(*v);
    }
    assert_eq!(reassembled, source);

    let single: CountTree<usize> = CountTree::from_vec(vec![9]);
    let mut sh = Shrinker::new(&single);
    let only = sh.next().expect("empty-tree candidate");
    assert_eq!(only.len(), 0);
    assert!(sh.next().is_none());

    let empty: CountTree<usize> = CountTree::new();
    let mut sh = Shrinker::new(&empty);
    assert!(sh.next().is_none());
}
