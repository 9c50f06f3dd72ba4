//! Reversing a singly linked list in place by relinking its nodes.

use vstd::prelude::*;

verus! {

/// A node of a singly linked list of `i32` values.
#[derive(PartialEq, Eq, Debug)]
pub struct ListNode {
    pub val: i32,
    pub next: Option<Box<ListNode>>,
}

impl ListNode {
    /// A single node holding `val`.
    pub fn new(val: i32) -> (node: Self)
        ensures
            node.val == val,
            node.next is None,
    {
        ListNode { next: None, val }
    }
}

impl Clone for ListNode {
    /// A deep copy of the node and the nodes after it.
    fn clone(&self) -> (copy: Self)
        ensures
            copy == *self,
        decreases self,
    {
        let next = match &self.next {
            Some(node) => Some(Box::new((**node).clone())),
            None => None,
        };
        ListNode { val: self.val, next }
    }
}

/// The values of a list, from its head.
pub open spec fn list_view(l: Option<Box<ListNode>>) -> Seq<i32>
    decreases l,
{
    match l {
        None => Seq::empty(),
        Some(node) => seq![node.val] + list_view(node.next),
    }
}

/// Reversing twice gives back the same values.
pub proof fn lemma_reverse_twice(s: Seq<i32>)
    ensures
        s.reverse().reverse() == s,
{
    assert(s.reverse().reverse() =~= s);
}

/// Reverses the list starting at `head` and returns the new head.
pub fn reverse_list(head: Option<Box<ListNode>>) -> (reversed: Option<Box<ListNode>>)
    ensures
        list_view(reversed) == list_view(head).reverse(),
{
    let ghost input = list_view(head);
    let mut head = head;
    let mut prev: Option<Box<ListNode>> = None;
    loop
        invariant
            input == list_view(prev).reverse() + list_view(head),
        ensures
            input == list_view(prev).reverse(),
        decreases list_view(head).len(),
    {
        match head {
            Some(mut curr) => {
                let ghost before = list_view(prev);
                let ghost rest = list_view(curr.next);
                let next_node = curr.next.take();
                curr.next = prev;
                let ghost v = curr.val;
                prev = Some(curr);
                head = next_node;
                proof {
                    assert(list_view(prev) == seq![v] + before);
                    assert((seq![v] + before).reverse() =~= before.reverse() + seq![v]);
                    assert(before.reverse() + seq![v] + rest =~= before.reverse() + (seq![v] + rest));
                }
            },
            None => {
                proof {
                    assert(list_view(prev).reverse() + Seq::<i32>::empty() =~= list_view(prev).reverse());
                }
                break;
            },
        }
    }
    proof {
        assert(list_view(prev).reverse().reverse() =~= list_view(prev));
    }
    prev
}

} // verus!
