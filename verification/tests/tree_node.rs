use interview::tree_node::{get_minimum_difference, max_level_sum, TreeNode};

#[test]
fn test_get_minimum_difference() {
    let mut root = TreeNode::new(4);
    let mut c1 = TreeNode::new(2);
    let c2 = TreeNode::new(6);
    let c12 = TreeNode::new(1);
    let c13 = TreeNode::new(3);
    c1.left = Some(Box::new(c12));
    c1.right = Some(Box::new(c13));
    root.left = Some(Box::new(c1));
    root.right = Some(Box::new(c2));
    assert_eq!(1, get_minimum_difference(Some(Box::new(root))));

    let mut root = TreeNode::new(1);
    let c1 = TreeNode::new(0);
    let mut c2 = TreeNode::new(48);
    let c12 = TreeNode::new(12);
    let c13 = TreeNode::new(49);
    c2.left = Some(Box::new(c12));
    c2.right = Some(Box::new(c13));
    root.left = Some(Box::new(c1));
    root.right = Some(Box::new(c2));
    assert_eq!(1, get_minimum_difference(Some(Box::new(root))));
}

#[test]
fn test_get_minimum_difference_edges() {
    assert_eq!(0, get_minimum_difference(None));
    assert_eq!(
        i32::MAX,
        get_minimum_difference(Some(Box::new(TreeNode::new(3))))
    );
    let mut root = TreeNode::new(10);
    root.right = Some(Box::new(TreeNode::new(3)));
    assert_eq!(7, get_minimum_difference(Some(Box::new(root))));
}

#[test]
fn test_max_level_sum() {
    let mut root = TreeNode::new(1);
    let mut c1 = TreeNode::new(7);
    let c2 = TreeNode::new(0);
    let c12 = TreeNode::new(7);
    let c13 = TreeNode::new(-8);
    c1.left = Some(Box::new(c12));
    c1.right = Some(Box::new(c13));
    root.left = Some(Box::new(c1));
    root.right = Some(Box::new(c2));
    assert_eq!(2, max_level_sum(Some(Box::new(root))));

    let mut root = TreeNode::new(989);
    let mut c2 = TreeNode::new(10250);
    let c12 = TreeNode::new(98693);
    let mut c13 = TreeNode::new(-89388);
    let c131 = TreeNode::new(-32127);
    c13.right = Some(Box::new(c131));
    c2.left = Some(Box::new(c12));
    c2.right = Some(Box::new(c13));

    root.right = Some(Box::new(c2));
    assert_eq!(2, max_level_sum(Some(Box::new(root))));
}

#[test]
fn test_max_level_sum_edges() {
    assert_eq!(0, max_level_sum(None));
    assert_eq!(1, max_level_sum(Some(Box::new(TreeNode::new(-5)))));
    assert_eq!(0, max_level_sum(Some(Box::new(TreeNode::new(i32::MIN)))));
}
