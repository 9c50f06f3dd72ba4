use lib::zigzag_level_order::{zigzag_level_order, TreeNode};

fn node(val: i32, left: Option<Box<TreeNode>>, right: Option<Box<TreeNode>>) -> Option<Box<TreeNode>> {
    let mut n = TreeNode::new(val);
    n.left = left;
    n.right = right;
    Some(Box::new(n))
}

fn leaf(val: i32) -> Option<Box<TreeNode>> {
    Some(Box::new(TreeNode::new(val)))
}

#[test]
fn zigzag_classic_example() {
    let root = node(3, leaf(9), node(20, leaf(15), leaf(7)));
    assert_eq!(zigzag_level_order(root), vec![vec![3], vec![20, 9], vec![15, 7]]);
}

#[test]
fn zigzag_empty_tree() {
    assert_eq!(zigzag_level_order(None), Vec::<Vec<i32>>::new());
}

#[test]
fn zigzag_single_node() {
    assert_eq!(zigzag_level_order(leaf(1)), vec![vec![1]]);
}

#[test]
fn four_levels() {
    let root = node(
        1,
        node(2, node(4, leaf(8), None), leaf(5)),
        node(3, leaf(6), node(7, None, leaf(9))),
    );
    assert_eq!(
        zigzag_level_order(root),
        vec![vec![1], vec![3, 2], vec![4, 5, 6, 7], vec![9, 8]]
    );
}

#[test]
fn left_spine() {
    let root = node(1, node(2, node(3, None, None), None), None);
    assert_eq!(zigzag_level_order(root), vec![vec![1], vec![2], vec![3]]);
}
