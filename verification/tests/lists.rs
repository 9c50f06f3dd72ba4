use lib::reverse_k_group::{reverse_k_group, ListNode as GroupNode};
use lib::reverse_list::{reverse_list, ListNode};

fn build(values: &[i32]) -> Option<Box<ListNode>> {
    let mut head = None;
    for &v in values.iter().rev() {
        let mut node = ListNode::new(v);
        node.next = head;
        head = Some(Box::new(node));
    }
    head
}

fn values(mut list: &Option<Box<ListNode>>) -> Vec<i32> {
    let mut out = Vec::new();
    while let Some(node) = list {
        out.push(node.val);
        list = &node.next;
    }
    out
}

fn build_g(values: &[i32]) -> Option<Box<GroupNode>> {
    let mut head = None;
    for &v in values.iter().rev() {
        let mut node = GroupNode::new(v);
        node.next = head;
        head = Some(Box::new(node));
    }
    head
}

fn values_g(mut list: &Option<Box<GroupNode>>) -> Vec<i32> {
    let mut out = Vec::new();
    while let Some(node) = list {
        out.push(node.val);
        list = &node.next;
    }
    out
}

#[test]
fn reverse_five() {
    let r = reverse_list(build(&[1, 2, 3, 4, 5]));
    assert_eq!(values(&r), vec![5, 4, 3, 2, 1]);
}

#[test]
fn reverse_empty_and_single() {
    assert_eq!(values(&reverse_list(None)), Vec::<i32>::new());
    assert_eq!(values(&reverse_list(build(&[9]))), vec![9]);
}

#[test]
fn reverse_twice_is_identity() {
    let r = reverse_list(reverse_list(build(&[3, 1, 4, 1, 5])));
    assert_eq!(values(&r), vec![3, 1, 4, 1, 5]);
}

#[test]
fn clone_is_deep_and_equal() {
    let a = build(&[1, 2, 3]).unwrap();
    let b = a.clone();
    assert_eq!(a, b);
    assert_eq!(values(&Some(b)), vec![1, 2, 3]);
}

#[test]
fn groups_of_two() {
    let r = reverse_k_group(build_g(&[1, 2, 3, 4, 5]), 2);
    assert_eq!(values_g(&r), vec![2, 1, 4, 3, 5]);
}

#[test]
fn groups_of_three() {
    let r = reverse_k_group(build_g(&[1, 2, 3, 4, 5]), 3);
    assert_eq!(values_g(&r), vec![3, 2, 1, 4, 5]);
}

#[test]
fn groups_of_one_keep_order() {
    let r = reverse_k_group(build_g(&[1, 2, 3]), 1);
    assert_eq!(values_g(&r), vec![1, 2, 3]);
}

#[test]
fn one_group_of_whole_length() {
    let r = reverse_k_group(build_g(&[1, 2, 3, 4]), 4);
    assert_eq!(values_g(&r), vec![4, 3, 2, 1]);
}

#[test]
fn group_longer_than_list() {
    let r = reverse_k_group(build_g(&[1, 2]), 3);
    assert_eq!(values_g(&r), vec![1, 2]);
    assert_eq!(values_g(&reverse_k_group(None, 2)), Vec::<i32>::new());
}

#[test]
fn reversing_groups_twice_is_identity() {
    let once = reverse_k_group(build_g(&[1, 2, 3, 4, 5, 6, 7]), 3);
    let twice = reverse_k_group(once, 3);
    assert_eq!(values_g(&twice), vec![1, 2, 3, 4, 5, 6, 7]);
}
