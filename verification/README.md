# Verified interview algorithms

Eight classic algorithm exercises written in Verus, each with a contract that
pins down its result and a proof that the code meets it.

| module | what it computes |
|---|---|
| `kth_largest` | k-th largest element, with a bounded ascending queue and with quickselect |
| `longest_substring` | length of the longest substring without a repeated character |
| `lru_cache` | least-recently-used cache: hash map plus a doubly linked list in an arena |
| `num_islands` | number of 4-connected groups of `'1'` cells, by depth-first flood fill |
| `reverse_list` | in-place reversal of a singly linked list |
| `reverse_k_group` | reversal of a linked list in groups of `k` nodes |
| `three_sum` | all distinct zero-sum triples, by sorting and two pointers |
| `zigzag_level_order` | level-order traversal of a binary tree, alternating direction |

Layout: `src/` is the verified library, `tests/` runs it on concrete inputs, and
`app/main.rs` is a small command-line front end (`app <program>`).

Two standard-library calls are trusted rather than proved: `slice::sort_unstable`
(sorted, same elements) and `Vec::from(VecDeque)` (same elements, same order).
