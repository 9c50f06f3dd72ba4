//! Reversing a singly linked list in groups of `k` nodes; a last group shorter than `k`
//! keeps its order.

use vstd::prelude::*;

verus! {

/// A node of a singly linked list of `i32` values.
#[derive(PartialEq, Eq, Debug)]
pub struct ListNode {
    pub val: i32,
    pub next: Option<Box<ListNode>>,
}

impl ListNode {
    /// A single node holding `val`.
    pub fn new(val: i32) -> (node: Self)
        ensures
            node.val == val,
            node.next is None,
    {
        ListNode { next: None, val }
    }
}

impl Clone for ListNode {
    /// A deep copy of the node and the nodes after it.
    fn clone(&self) -> (copy: Self)
        ensures
            copy == *self,
        decreases self,
    {
        let next = match &self.next {
            Some(node) => Some(Box::new((**node).clone())),
            None => None,
        };
        ListNode { val: self.val, next }
    }
}

/// The values of a list, from its head.
pub open spec fn list_view(l: Option<Box<ListNode>>) -> Seq<i32>
    decreases l,
{
    match l {
        None => Seq::empty(),
        Some(node) => seq![node.val] + list_view(node.next),
    }
}

/// `s` with each full group of `k` consecutive values reversed, from the front; a last
/// group shorter than `k` stays as it is.
pub open spec fn reverse_groups(s: Seq<i32>, k: nat) -> Seq<i32>
    decreases s.len(),
{
    if k == 0 || s.len() < k {
        s
    } else {
        s.take(k as int).reverse() + reverse_groups(s.skip(k as int), k)
    }
}

/// Reversing in groups of `k` keeps the length.
pub proof fn lemma_reverse_groups_len(s: Seq<i32>, k: nat)
    ensures
        reverse_groups(s, k).len() == s.len(),
    decreases s.len(),
{
    if !(k == 0 || s.len() < k) {
        lemma_reverse_groups_len(s.skip(k as int), k);
    }
}

/// Reversing in groups of `k` twice gives back the same sequence.
pub proof fn lemma_reverse_groups_involution(s: Seq<i32>, k: nat)
    ensures
        reverse_groups(reverse_groups(s, k), k) == s,
    decreases s.len(),
{
    if !(k == 0 || s.len() < k) {
        let head = s.take(k as int).reverse();
        let tail = reverse_groups(s.skip(k as int), k);
        let r = head + tail;
        lemma_reverse_groups_len(s.skip(k as int), k);
        assert(r.take(k as int) =~= head);
        assert(r.skip(k as int) =~= tail);
        lemma_reverse_groups_involution(s.skip(k as int), k);
        assert(head.reverse() =~= s.take(k as int));
        assert(s.take(k as int) + s.skip(k as int) =~= s);
    }
}

/// Groups of one value are left as they are.
pub proof fn lemma_reverse_groups_one(s: Seq<i32>)
    ensures
        reverse_groups(s, 1) == s,
    decreases s.len(),
{
    if s.len() >= 1 {
        lemma_reverse_groups_one(s.skip(1));
        assert(s.take(1).reverse() =~= s.take(1));
        assert(s.take(1) + s.skip(1) =~= s);
    }
}

/// The list `list` followed by the list `rest`.
fn append(list: Option<Box<ListNode>>, rest: Option<Box<ListNode>>) -> (joined: Option<Box<ListNode>>)
    ensures
        list_view(joined) == list_view(list) + list_view(rest),
    decreases list,
{
    match list {
        None => {
            assert(Seq::<i32>::empty() + list_view(rest) =~= list_view(rest));
            rest
        },
        Some(mut node) => {
            let ghost v = node.val;
            let ghost tail = list_view(node.next);
            let next = node.next.take();
            node.next = append(next, rest);
            assert(seq![v] + (tail + list_view(rest)) =~= seq![v] + tail + list_view(rest));
            Some(node)
        },
    }
}

/// Reverses the nodes of the list at `head` in groups of `k`, leaving a last group of
/// fewer than `k` nodes in its order, and returns the new head.
pub fn reverse_k_group(head: Option<Box<ListNode>>, k: i32) -> (result: Option<Box<ListNode>>)
    requires
        k >= 1,
    ensures
        list_view(result) == reverse_groups(list_view(head), k as nat),
    decreases list_view(head).len(),
{
    let ghost s = list_view(head);
    let mut cursor = &head;
    let mut counted: i32 = 0;
    while counted < k
        invariant
            0 <= counted <= k,
            s == list_view(head),
            counted <= s.len(),
            list_view(*cursor) == s.skip(counted as int),
        decreases k - counted,
    {
        match cursor {
            Some(node) => {
                proof {
                    assert(list_view(*cursor) == seq![node.val] + list_view(node.next));
                    assert(s.skip(counted + 1) =~= s.skip(counted as int).drop_first());
                }
                cursor = &node.next;
            },
            None => {
                return head;
            },
        }
        counted += 1;
    }

    let mut prev: Option<Box<ListNode>> = None;
    let mut curr = head;
    let mut done: i32 = 0;
    while done < k
        invariant
            0 <= done <= k,
            k <= s.len(),
            list_view(prev) == s.take(done as int).reverse(),
            list_view(curr) == s.skip(done as int),
        decreases k - done,
    {
        if let Some(mut node) = curr {
            let ghost v = node.val;
            let ghost before = list_view(prev);
            let next_node = node.next.take();
            node.next = prev;
            prev = Some(node);
            curr = next_node;
            proof {
                assert(s.skip(done as int)[0] == v);
                assert(s.take(done + 1) =~= s.take(done as int).push(v));
                assert(s.take(done + 1).reverse() =~= seq![v] + before);
                assert(s.skip(done + 1) =~= s.skip(done as int).drop_first());
            }
        } else {
            curr = None;
        }
        done += 1;
    }

    let rest = reverse_k_group(curr, k);
    append(prev, rest)
}

} // verus!
