//! Zigzag level-order traversal of a binary tree: the values level by level, left to
//! right on even levels and right to left on odd ones, by breadth-first search.

use vstd::prelude::*;
use std::collections::VecDeque;

verus! {

/// A node of a binary tree of `i32` values; each node owns its children.
#[derive(Debug, PartialEq, Eq)]
pub struct TreeNode {
    pub val: i32,
    pub left: Option<Box<TreeNode>>,
    pub right: Option<Box<TreeNode>>,
}

impl TreeNode {
    /// A leaf holding `val`.
    pub fn new(val: i32) -> (node: Self)
        ensures
            node.val == val,
            node.left is None,
            node.right is None,
    {
        TreeNode { val, left: None, right: None }
    }
}

/// The nodes of `t` at depth `d`, from left to right.
pub open spec fn level_nodes(t: Option<Box<TreeNode>>, d: nat) -> Seq<TreeNode>
    decreases t,
{
    match t {
        None => Seq::empty(),
        Some(node) => if d == 0 {
            seq![*node]
        } else {
            level_nodes(node.left, (d - 1) as nat) + level_nodes(node.right, (d - 1) as nat)
        },
    }
}

/// The values of `t` at depth `d`, from left to right.
pub open spec fn level_values(t: Option<Box<TreeNode>>, d: nat) -> Seq<i32> {
    level_nodes(t, d).map_values(|n: TreeNode| n.val)
}

/// The number of levels of `t`.
pub open spec fn height(t: Option<Box<TreeNode>>) -> nat
    decreases t,
{
    match t {
        None => 0,
        Some(node) => {
            let l = height(node.left);
            let r = height(node.right);
            1 + if l >= r {
                l
            } else {
                r
            }
        },
    }
}

/// The children of `n`, left first.
pub open spec fn children(n: TreeNode) -> Seq<TreeNode> {
    level_nodes(n.left, 0) + level_nodes(n.right, 0)
}

/// The children of the nodes of `q`, in order.
pub open spec fn next_level(q: Seq<TreeNode>) -> Seq<TreeNode>
    decreases q.len(),
{
    if q.len() == 0 {
        Seq::empty()
    } else {
        children(q[0]) + next_level(q.drop_first())
    }
}

/// What the traversal returns for level `d`: its values, reversed on odd levels.
pub open spec fn zigzag_row(t: Option<Box<TreeNode>>, d: nat) -> Seq<i32> {
    if d % 2 == 0 {
        level_values(t, d)
    } else {
        level_values(t, d).reverse()
    }
}

/// The tree reflected left to right.
pub open spec fn mirror(t: Option<Box<TreeNode>>) -> Option<Box<TreeNode>>
    decreases t,
{
    match t {
        None => None,
        Some(node) => Some(Box::new(TreeNode { val: node.val, left: mirror(node.right), right: mirror(node.left) })),
    }
}

/// Each level of the mirrored tree holds the values of that level in reverse order.
pub proof fn lemma_mirror_level(t: Option<Box<TreeNode>>, d: nat)
    ensures
        level_values(mirror(t), d) == level_values(t, d).reverse(),
    decreases t,
{
    match t {
        None => {
            assert(level_values(t, d) =~= Seq::<i32>::empty());
            assert(level_values(mirror(t), d) =~= Seq::<i32>::empty());
        },
        Some(node) => {
            if d == 0 {
                assert(level_values(t, d) =~= seq![node.val]);
                assert(level_values(mirror(t), d) =~= seq![node.val]);
            } else {
                let e = (d - 1) as nat;
                lemma_mirror_level(node.left, e);
                lemma_mirror_level(node.right, e);
                let f = |n: TreeNode| n.val;
                assert(level_nodes(t, d) == level_nodes(node.left, e) + level_nodes(node.right, e));
                assert(level_nodes(mirror(t), d) == level_nodes(mirror(node.right), e) + level_nodes(mirror(node.left), e));
                assert(level_values(t, d) =~= level_values(node.left, e) + level_values(node.right, e));
                assert(level_values(mirror(t), d) =~= level_values(mirror(node.right), e) + level_values(mirror(node.left), e));
                assert((level_values(node.left, e) + level_values(node.right, e)).reverse() =~= level_values(node.right, e).reverse()
                    + level_values(node.left, e).reverse());
            }
        },
    }
}

/// Every even level is read left to right and every odd level right to left, whatever
/// its width: an odd row is the same level of the mirrored tree read left to right.
pub proof fn lemma_zigzag_rows(t: Option<Box<TreeNode>>, d: nat)
    ensures
        d % 2 == 0 ==> zigzag_row(t, d) == level_values(t, d),
        d % 2 == 1 ==> zigzag_row(t, d) == level_values(t, d).reverse(),
        d % 2 == 1 ==> zigzag_row(t, d) == level_values(mirror(t), d),
        zigzag_row(t, d).len() == level_nodes(t, d).len(),
{
    lemma_mirror_level(t, d);
}

proof fn lemma_next_level_add(a: Seq<TreeNode>, b: Seq<TreeNode>)
    ensures
        next_level(a + b) == next_level(a) + next_level(b),
    decreases a.len(),
{
    if a.len() == 0 {
        assert(a + b =~= b);
        assert(Seq::<TreeNode>::empty() + next_level(b) =~= next_level(b));
    } else {
        assert((a + b).drop_first() =~= a.drop_first() + b);
        lemma_next_level_add(a.drop_first(), b);
        assert(children(a[0]) + (next_level(a.drop_first()) + next_level(b)) =~= children(a[0])
            + next_level(a.drop_first()) + next_level(b));
    }
}

proof fn lemma_next_level_push(q: Seq<TreeNode>, n: TreeNode)
    ensures
        next_level(q.push(n)) == next_level(q) + children(n),
{
    lemma_next_level_add(q, seq![n]);
    assert(q.push(n) =~= q + seq![n]);
    assert(seq![n].drop_first() =~= Seq::<TreeNode>::empty());
    assert(next_level(Seq::<TreeNode>::empty()) =~= Seq::<TreeNode>::empty());
    assert(children(n) + Seq::<TreeNode>::empty() =~= children(n));
    assert(next_level(seq![n]) =~= children(n));
}

/// The nodes one level down are the children of the nodes of this level, in order.
proof fn lemma_level_step(t: Option<Box<TreeNode>>, d: nat)
    ensures
        level_nodes(t, d + 1) == next_level(level_nodes(t, d)),
    decreases t,
{
    match t {
        None => {},
        Some(node) => {
            if d == 0 {
                let s = seq![*node];
                assert(s.drop_first() =~= Seq::<TreeNode>::empty());
                assert(next_level(Seq::<TreeNode>::empty()) =~= Seq::<TreeNode>::empty());
                assert(children(*node) + Seq::<TreeNode>::empty() =~= children(*node));
                assert(next_level(s) =~= children(*node));
                assert(level_nodes(t, 1) =~= level_nodes(node.left, 0) + level_nodes(node.right, 0));
            } else {
                lemma_level_step(node.left, (d - 1) as nat);
                lemma_level_step(node.right, (d - 1) as nat);
                lemma_next_level_add(level_nodes(node.left, (d - 1) as nat), level_nodes(node.right, (d - 1) as nat));
                assert(((d + 1) - 1) as nat == ((d - 1) as nat) + 1);
            }
        },
    }
}

/// A level holds nodes exactly when it lies above the height.
proof fn lemma_level_nonempty(t: Option<Box<TreeNode>>, d: nat)
    ensures
        level_nodes(t, d).len() > 0 <==> d < height(t),
    decreases t,
{
    match t {
        None => {},
        Some(node) => {
            if d > 0 {
                lemma_level_nonempty(node.left, (d - 1) as nat);
                lemma_level_nonempty(node.right, (d - 1) as nat);
            }
        },
    }
}

/// The nodes a sequence of references points at.
spec fn nodes_of(q: Seq<&TreeNode>) -> Seq<TreeNode> {
    q.map_values(|r: &TreeNode| *r)
}

/// Turns a `VecDeque` into a `Vec` with `From` from the standard library, whose
/// documentation promises the same elements in the same order.
#[verifier::external_body]
fn deque_into_vec(row: VecDeque<i32>) -> (v: Vec<i32>)
    ensures
        v@ == row@,
{
    row.into()
}

/// Returns the values of the tree level by level: left to right on even levels (the
/// root's level is 0) and right to left on odd levels.
pub fn zigzag_level_order(root: Option<Box<TreeNode>>) -> (res: Vec<Vec<i32>>)
    ensures
        res@.len() == height(root),
        forall|d: int| 0 <= d < res@.len() ==> (#[trigger] res@[d])@ == zigzag_row(root, d as nat),
        forall|d: int| 0 <= d < res@.len() && d % 2 == 0 ==> (#[trigger] res@[d])@ == level_values(root, d as nat),
        forall|d: int| 0 <= d < res@.len() && d % 2 == 1 ==> (#[trigger] res@[d])@ == level_values(root, d as nat).reverse(),
{
    let mut res: Vec<Vec<i32>> = Vec::new();
    if root.is_none() {
        return res;
    }
    let root_ref: &TreeNode = match &root {
        Some(b) => &**b,
        None => { return res; },
    };

    let mut queue: VecDeque<&TreeNode> = VecDeque::new();
    queue.push_back(root_ref);

    let mut left_to_right = true;
    let ghost mut depth: nat = 0;
    proof {
        assert(nodes_of(queue@) =~= level_nodes(root, 0));
    }

    while queue.len() > 0
        invariant
            nodes_of(queue@) == level_nodes(root, depth),
            res@.len() == depth,
            left_to_right == (depth % 2 == 0),
            depth <= height(root),
            forall|d: int| 0 <= d < res@.len() ==> (#[trigger] res@[d])@ == zigzag_row(root, d as nat),
        decreases height(root) - depth,
    {
        proof {
            lemma_level_nonempty(root, depth);
        }
        let ghost level = nodes_of(queue@);
        let level_size = queue.len();
        let mut row: VecDeque<i32> = VecDeque::with_capacity(level_size);
        let mut i: usize = 0;
        while i < level_size
            invariant
                level_size == level.len(),
                i <= level_size,
                nodes_of(queue@) == level.skip(i as int) + next_level(level.take(i as int)),
                left_to_right ==> row@ == level.take(i as int).map_values(|n: TreeNode| n.val),
                !left_to_right ==> row@ == level.take(i as int).map_values(|n: TreeNode| n.val).reverse(),
            decreases level_size - i,
        {
            let ghost q0 = queue@;
            let node = queue.pop_front().unwrap();
            proof {
                assert(nodes_of(queue@) =~= nodes_of(q0).drop_first());
                assert(*node == nodes_of(q0)[0]);
                assert(*node == level[i as int]);
                assert(level.skip(i as int).drop_first() =~= level.skip(i + 1));
                assert(level.take(i + 1) =~= level.take(i as int).push(*node));
                lemma_next_level_push(level.take(i as int), *node);
                assert(level.take(i + 1).map_values(|n: TreeNode| n.val) =~= level.take(i as int).map_values(
                    |n: TreeNode| n.val,
                ).push(node.val));
                assert(level.take(i as int).map_values(|n: TreeNode| n.val).push(node.val).reverse() =~= seq![node.val]
                    + level.take(i as int).map_values(|n: TreeNode| n.val).reverse());
            }
            if left_to_right {
                row.push_back(node.val);
            } else {
                row.push_front(node.val);
            }
            let ghost q1 = nodes_of(queue@);
            if let Some(left_child) = &node.left {
                queue.push_back(&**left_child);
            }
            let ghost q2 = nodes_of(queue@);
            proof {
                assert(q2 =~= q1 + level_nodes(node.left, 0));
            }
            if let Some(right_child) = &node.right {
                queue.push_back(&**right_child);
            }
            proof {
                assert(nodes_of(queue@) =~= q2 + level_nodes(node.right, 0));
                assert(q1 =~= level.skip(i + 1) + next_level(level.take(i as int)));
                assert(nodes_of(queue@) =~= level.skip(i + 1) + next_level(level.take(i as int)) + children(*node));
            }
            i += 1;
        }
        proof {
            assert(level.skip(level_size as int) =~= Seq::<TreeNode>::empty());
            assert(level.take(level_size as int) =~= level);
            lemma_level_step(root, depth);
            assert(nodes_of(queue@) =~= level_nodes(root, depth + 1));
        }
        let ghost r0 = res@;
        res.push(deque_into_vec(row));
        left_to_right = !left_to_right;
        proof {
            assert(res@[depth as int]@ == zigzag_row(root, depth));
            depth = depth + 1;
            lemma_level_nonempty(root, depth);
            assert forall|d: int| 0 <= d < res@.len() implies (#[trigger] res@[d])@ == zigzag_row(root, d as nat) by {
                if d < r0.len() {
                    assert(res@[d] == r0[d]);
                }
            }
        }
    }
    proof {
        lemma_level_nonempty(root, depth);
        assert forall|d: int| 0 <= d < res@.len() implies ((d % 2 == 0 ==> (#[trigger] res@[d])@ == level_values(root, d as nat))
            && (d % 2 == 1 ==> res@[d]@ == level_values(root, d as nat).reverse())) by {
            lemma_zigzag_rows(root, d as nat);
        }
    }
    res
}

} // verus!
