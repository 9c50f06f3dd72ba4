//! Kth largest element of an array (counting duplicates), two ways:
//! a bounded min-queue of the k largest values seen so far, and quickselect.

use vstd::prelude::*;
use vstd::multiset::Multiset;

verus! {

// ---------------------------------------------------------------------------
// Specification
// ---------------------------------------------------------------------------

/// Number of elements of `m` strictly greater than `v`.
pub open spec fn count_greater(m: Multiset<i32>, v: i32) -> nat {
    m.filter(|x: i32| x > v).len()
}

/// Number of elements of `m` greater than or equal to `v`.
pub open spec fn count_at_least(m: Multiset<i32>, v: i32) -> nat {
    m.filter(|x: i32| x >= v).len()
}

/// `r` is the `k`-th largest element of `s`, duplicates counted: `r` occurs in `s`,
/// fewer than `k` elements of `s` exceed it, and at least `k` are at least `r`.
/// This is the element at index `k - 1` once `s` is sorted in decreasing order.
pub open spec fn is_kth_largest(s: Seq<i32>, k: int, r: i32) -> bool {
    &&& s.contains(r)
    &&& count_greater(s.to_multiset(), r) < k
    &&& count_at_least(s.to_multiset(), r) >= k
}

/// The two sequences hold the same values at every index outside `[lo, hi)`.
pub open spec fn same_outside(a: Seq<i32>, b: Seq<i32>, lo: int, hi: int) -> bool {
    &&& a.len() == b.len()
    &&& forall|x: int| 0 <= x < a.len() && !(lo <= x < hi) ==> a[x] == b[x]
}

/// `a[lo..hi)` and `b[lo..hi)` hold the same values, duplicates counted.
pub open spec fn same_segment(a: Seq<i32>, b: Seq<i32>, lo: int, hi: int) -> bool {
    a.subrange(lo, hi).to_multiset() == b.subrange(lo, hi).to_multiset()
}

/// `s` is sorted in non-decreasing order.
pub open spec fn sorted_ascending(s: Seq<i32>) -> bool {
    forall|a: int, b: int| 0 <= a <= b < s.len() ==> s[a] <= s[b]
}

// ---------------------------------------------------------------------------
// Counting lemmas
// ---------------------------------------------------------------------------

proof fn lemma_subset_len(a: Multiset<i32>, b: Multiset<i32>)
    requires
        a.subset_of(b),
    ensures
        a.len() <= b.len(),
{
    assert(b =~= a.add(b.sub(a)));
}

proof fn lemma_filter_add(a: Multiset<i32>, b: Multiset<i32>, f: spec_fn(i32) -> bool)
    ensures
        a.add(b).filter(f) =~= a.filter(f).add(b.filter(f)),
{
}

proof fn lemma_filter_len_le(m: Multiset<i32>, f: spec_fn(i32) -> bool)
    ensures
        m.filter(f).len() <= m.len(),
{
    lemma_subset_len(m.filter(f), m);
}

proof fn lemma_filter_all(s: Seq<i32>, f: spec_fn(i32) -> bool)
    requires
        forall|i: int| 0 <= i < s.len() ==> f(s[i]),
    ensures
        s.to_multiset().filter(f).len() == s.len(),
{
    assert forall|v: i32| s.to_multiset().filter(f).count(v) == s.to_multiset().count(v) by {
        vstd::seq_lib::to_multiset_contains(s, v);
        if !f(v) && s.to_multiset().count(v) > 0 {
            let i = choose|i: int| 0 <= i < s.len() && s[i] == v;
            assert(f(s[i]));
        }
    }
    assert(s.to_multiset().filter(f) =~= s.to_multiset());
    vstd::seq_lib::to_multiset_len(s);
}

proof fn lemma_filter_none(s: Seq<i32>, f: spec_fn(i32) -> bool)
    requires
        forall|i: int| 0 <= i < s.len() ==> !f(s[i]),
    ensures
        s.to_multiset().filter(f).len() == 0,
{
    assert forall|v: i32| s.to_multiset().filter(f).count(v) == Multiset::<i32>::empty().count(
        v,
    ) by {
        vstd::seq_lib::to_multiset_contains(s, v);
        if f(v) && s.to_multiset().count(v) > 0 {
            let i = choose|i: int| 0 <= i < s.len() && s[i] == v;
            assert(!f(s[i]));
        }
    }
    assert(s.to_multiset().filter(f) =~= Multiset::<i32>::empty());
}

/// A pivot `r` with only smaller-or-equal values on one side and only larger-or-equal
/// values on the other is the `(hi.len() + 1)`-th largest of the whole.
proof fn lemma_pivot_is_kth(lo: Seq<i32>, r: i32, hi: Seq<i32>)
    requires
        forall|i: int| 0 <= i < lo.len() ==> lo[i] <= r,
        forall|i: int| 0 <= i < hi.len() ==> hi[i] >= r,
    ensures
        is_kth_largest(lo + seq![r] + hi, hi.len() + 1int, r),
{
    let s = lo + seq![r] + hi;
    let mid = seq![r] + hi;
    assert(s =~= lo + mid);
    let gt = |x: i32| x > r;
    let ge = |x: i32| x >= r;
    vstd::seq_lib::lemma_multiset_commutative(lo, mid);
    vstd::seq_lib::lemma_multiset_commutative(seq![r], hi);
    lemma_filter_add(lo.to_multiset(), mid.to_multiset(), gt);
    lemma_filter_add(lo.to_multiset(), mid.to_multiset(), ge);
    lemma_filter_add(seq![r].to_multiset(), hi.to_multiset(), gt);
    lemma_filter_none(lo, gt);
    lemma_filter_none(seq![r], gt);
    lemma_filter_len_le(hi.to_multiset(), gt);
    vstd::seq_lib::to_multiset_len(hi);
    lemma_filter_all(mid, ge);
    assert(s[lo.len() as int] == r);
}

/// Two sequences with the same multiset agree on who is the k-th largest.
proof fn lemma_kth_permutation(a: Seq<i32>, b: Seq<i32>, k: int, r: i32)
    requires
        a.to_multiset() == b.to_multiset(),
        is_kth_largest(a, k, r),
    ensures
        is_kth_largest(b, k, r),
{
    vstd::seq_lib::to_multiset_contains(a, r);
    vstd::seq_lib::to_multiset_contains(b, r);
}

/// The k-th largest element is unique.
pub proof fn lemma_kth_largest_unique(s: Seq<i32>, k: int, r1: i32, r2: i32)
    requires
        is_kth_largest(s, k, r1),
        is_kth_largest(s, k, r2),
    ensures
        r1 == r2,
{
    let m = s.to_multiset();
    if r1 < r2 {
        lemma_subset_len(m.filter(|x: i32| x >= r2), m.filter(|x: i32| x > r1));
    } else if r2 < r1 {
        lemma_subset_len(m.filter(|x: i32| x >= r1), m.filter(|x: i32| x > r2));
    }
}

// ---------------------------------------------------------------------------
// Quickselect
// ---------------------------------------------------------------------------

proof fn lemma_swap_segment(old_s: Seq<i32>, new_s: Seq<i32>, lo: int, hi: int, i: int, j: int)
    requires
        0 <= lo <= i < hi <= old_s.len(),
        lo <= j < hi,
        new_s == old_s.update(i, old_s[j]).update(j, old_s[i]),
    ensures
        same_segment(old_s, new_s, lo, hi),
        same_outside(old_s, new_s, lo, hi),
{
    let a = old_s.subrange(lo, hi);
    let b = new_s.subrange(lo, hi);
    let a1 = a.update(i - lo, a[j - lo]);
    assert(b =~= a1.update(j - lo, a[i - lo]));
    vstd::seq_lib::to_multiset_update(a, i - lo, a[j - lo]);
    vstd::seq_lib::to_multiset_update(a1, j - lo, a[i - lo]);
    if i != j {
        assert(a1[j - lo] == a[j - lo]);
    }
    vstd::seq_lib::to_multiset_contains(a, a[i - lo]);
    vstd::seq_lib::to_multiset_contains(a, a[j - lo]);
    assert(a.contains(a[i - lo]));
    assert(a.contains(a[j - lo]));
    assert(b.to_multiset() =~= a.to_multiset());
}

fn swap(arr: &mut Vec<i32>, i: usize, j: usize)
    requires
        i < old(arr).len(),
        j < old(arr).len(),
    ensures
        final(arr)@ == old(arr)@.update(i as int, old(arr)@[j as int]).update(
            j as int,
            old(arr)@[i as int],
        ),
{
    let t = arr[i];
    let u = arr[j];
    arr.set(i, u);
    arr.set(j, t);
}

/// Partitions `arr[lo..hi)` around its first element and returns the pivot's final index.
fn partition(arr: &mut Vec<i32>, lo: usize, hi: usize) -> (p: usize)
    requires
        lo + 2 <= hi <= old(arr).len(),
    ensures
        lo <= p < hi,
        same_outside(old(arr)@, final(arr)@, lo as int, hi as int),
        same_segment(old(arr)@, final(arr)@, lo as int, hi as int),
        final(arr)@[p as int] == old(arr)@[lo as int],
        forall|x: int| lo <= x < p ==> final(arr)@[x] <= final(arr)@[p as int],
        forall|x: int| p < x < hi ==> final(arr)@[x] >= final(arr)@[p as int],
{
    let ghost input = arr@;
    let pivot = arr[lo];
    let mut i = lo + 1;
    let mut j = hi - 1;

    while i <= j
        invariant
            lo + 1 <= i <= hi,
            lo <= j < hi,
            hi <= arr.len(),
            arr@[lo as int] == pivot,
            pivot == input[lo as int],
            same_outside(input, arr@, lo as int, hi as int),
            same_segment(input, arr@, lo as int, hi as int),
            forall|x: int| lo + 1 <= x < i ==> arr@[x] <= pivot,
            forall|x: int| j < x < hi ==> arr@[x] >= pivot,
        decreases (j - lo) + (hi - i),
    {
        if arr[i] > pivot && arr[j] < pivot {
            let ghost before = arr@;
            swap(arr, i, j);
            proof {
                lemma_swap_segment(before, arr@, lo as int, hi as int, i as int, j as int);
            }
            i += 1;
            j -= 1;
        }
        if arr[i] <= pivot {
            i += 1;
        }
        if arr[j] >= pivot {
            j -= 1;
        }
    }

    let ghost before = arr@;
    swap(arr, lo, j);
    proof {
        lemma_swap_segment(before, arr@, lo as int, hi as int, lo as int, j as int);
    }
    j
}

/// Rearranges `arr[lo..hi)` so that index `k` holds the value it would hold if the
/// segment were sorted, with no larger value before it and no smaller after it.
fn quick_select(arr: &mut Vec<i32>, lo: usize, hi: usize, k: usize) -> (r: i32)
    requires
        lo <= k < hi <= old(arr).len(),
    ensures
        same_outside(old(arr)@, final(arr)@, lo as int, hi as int),
        same_segment(old(arr)@, final(arr)@, lo as int, hi as int),
        r == final(arr)@[k as int],
        forall|x: int| lo <= x < k ==> final(arr)@[x] <= r,
        forall|x: int| k < x < hi ==> final(arr)@[x] >= r,
    decreases hi - lo,
{
    if hi - lo <= 1 {
        return arr[lo];
    }
    let ghost a0 = arr@;
    let pivot_idx = partition(arr, lo, hi);
    let ghost a1 = arr@;

    if pivot_idx == k {
        arr[k]
    } else if k < pivot_idx {
        let r = quick_select(arr, lo, pivot_idx, k);
        proof {
            lemma_segment_bound_above(a1, arr@, lo as int, pivot_idx as int, a1[pivot_idx as int]);
            lemma_join_segments(a0, a1, arr@, lo as int, pivot_idx as int, hi as int);
        }
        r
    } else {
        let r = quick_select(arr, pivot_idx + 1, hi, k);
        proof {
            lemma_segment_bound_below(a1, arr@, pivot_idx + 1, hi as int, a1[pivot_idx as int]);
            lemma_join_segments(a0, a1, arr@, lo as int, pivot_idx + 1, hi as int);
        }
        r
    }
}

/// Permuting a segment whose values are all at most `v` keeps them all at most `v`.
proof fn lemma_segment_bound_above(a: Seq<i32>, b: Seq<i32>, lo: int, hi: int, v: i32)
    requires
        0 <= lo <= hi <= a.len(),
        a.len() == b.len(),
        same_segment(a, b, lo, hi),
        forall|x: int| lo <= x < hi ==> a[x] <= v,
    ensures
        forall|x: int| lo <= x < hi ==> b[x] <= v,
{
    assert forall|x: int| lo <= x < hi implies b[x] <= v by {
        let sa = a.subrange(lo, hi);
        let sb = b.subrange(lo, hi);
        assert(sb[x - lo] == b[x]);
        vstd::seq_lib::to_multiset_contains(sb, b[x]);
        vstd::seq_lib::to_multiset_contains(sa, b[x]);
        let y = choose|y: int| 0 <= y < sa.len() && sa[y] == b[x];
        assert(a[lo + y] == b[x]);
    }
}

/// Permuting a segment whose values are all at least `v` keeps them all at least `v`.
proof fn lemma_segment_bound_below(a: Seq<i32>, b: Seq<i32>, lo: int, hi: int, v: i32)
    requires
        0 <= lo <= hi <= a.len(),
        a.len() == b.len(),
        same_segment(a, b, lo, hi),
        forall|x: int| lo <= x < hi ==> a[x] >= v,
    ensures
        forall|x: int| lo <= x < hi ==> b[x] >= v,
{
    assert forall|x: int| lo <= x < hi implies b[x] >= v by {
        let sa = a.subrange(lo, hi);
        let sb = b.subrange(lo, hi);
        assert(sb[x - lo] == b[x]);
        vstd::seq_lib::to_multiset_contains(sb, b[x]);
        vstd::seq_lib::to_multiset_contains(sa, b[x]);
        let y = choose|y: int| 0 <= y < sa.len() && sa[y] == b[x];
        assert(a[lo + y] == b[x]);
    }
}

/// Permuting `[lo, hi)` and then a sub-segment `[s, e)` of it permutes `[lo, hi)`.
proof fn lemma_join_segments(a0: Seq<i32>, a1: Seq<i32>, a2: Seq<i32>, lo: int, s: int, hi: int)
    requires
        0 <= lo <= s <= hi <= a0.len(),
        same_outside(a0, a1, lo, hi),
        same_segment(a0, a1, lo, hi),
        (same_outside(a1, a2, lo, s) && same_segment(a1, a2, lo, s)) || (same_outside(
            a1,
            a2,
            s,
            hi,
        ) && same_segment(a1, a2, s, hi)),
    ensures
        same_outside(a0, a2, lo, hi),
        same_segment(a0, a2, lo, hi),
{
    let l1 = a1.subrange(lo, s);
    let r1 = a1.subrange(s, hi);
    let l2 = a2.subrange(lo, s);
    let r2 = a2.subrange(s, hi);
    assert(a1.subrange(lo, hi) =~= l1 + r1);
    assert(a2.subrange(lo, hi) =~= l2 + r2);
    vstd::seq_lib::lemma_multiset_commutative(l1, r1);
    vstd::seq_lib::lemma_multiset_commutative(l2, r2);
    if same_outside(a1, a2, lo, s) && same_segment(a1, a2, lo, s) {
        assert(r1 =~= r2);
    } else {
        assert(l1 =~= l2);
    }
}

// ---------------------------------------------------------------------------
// Sorted bounded queue (the min-heap of the k largest values seen so far)
// ---------------------------------------------------------------------------

/// Inserts `x` into the ascending sequence `q`, keeping it ascending; returns where.
fn push_sorted(q: &mut Vec<i32>, x: i32) -> (pos: usize)
    requires
        sorted_ascending(old(q)@),
    ensures
        pos <= old(q)@.len(),
        final(q)@ == old(q)@.insert(pos as int, x),
        sorted_ascending(final(q)@),
        final(q)@.to_multiset() == old(q)@.to_multiset().insert(x),
{
    let mut pos: usize = 0;
    while pos < q.len() && q[pos] < x
        invariant
            pos <= q.len(),
            forall|y: int| 0 <= y < pos ==> q@[y] < x,
        decreases q.len() - pos,
    {
        pos += 1;
    }
    let ghost before = q@;
    q.insert(pos, x);
    proof {
        vstd::seq_lib::to_multiset_insert(before, pos as int, x);
    }
    pos
}

/// Returns the `k`-th largest element of `nums` (duplicates counted), keeping only the
/// `k` largest values seen so far in an ascending queue. Where `k` exceeds the length,
/// the queue keeps every value and the smallest one is returned.
pub fn find_kth_largest_heap(nums: Vec<i32>, k: i32) -> (r: i32)
    requires
        nums.len() >= 1,
        k >= 1,
    ensures
        is_kth_largest(nums@, if k <= nums.len() { k as int } else { nums.len() as int }, r),
{
    let kk = k as usize;
    let mut min_heap: Vec<i32> = Vec::new();
    let ghost mut dropped: Seq<i32> = Seq::empty();
    let mut i: usize = 0;
    assert(nums@.subrange(0, 0) =~= min_heap@ + dropped);
    while i < nums.len()
        invariant
            i <= nums.len(),
            kk >= 1,
            kk == k,
            sorted_ascending(min_heap@),
            min_heap@.len() == if i <= kk { i as int } else { kk as int },
            dropped.len() + min_heap@.len() == i,
            nums@.subrange(0, i as int).to_multiset() == (min_heap@ + dropped).to_multiset(),
            forall|y: int| 0 <= y < dropped.len() ==> dropped[y] <= min_heap@[0],
        decreases nums.len() - i,
    {
        let x = nums[i];
        let ghost h0 = min_heap@;
        let pos = push_sorted(&mut min_heap, x);
        proof {
            assert(nums@.subrange(0, i + 1) =~= nums@.subrange(0, i as int).push(x));
            vstd::seq_lib::lemma_multiset_commutative(h0, dropped);
            vstd::seq_lib::lemma_multiset_commutative(min_heap@, dropped);
            vstd::seq_lib::to_multiset_build(nums@.subrange(0, i as int), x);
            assert((min_heap@ + dropped).to_multiset() =~= (h0 + dropped).to_multiset().insert(
                x,
            ));
            h0.insert_ensures(pos as int, x);
            if h0.len() > 0 {
                if pos == 0 {
                    assert(min_heap@[1] == h0[0]);
                } else {
                    assert(min_heap@[0] == h0[0]);
                }
                assert(min_heap@[1] >= h0[0]);
            }
        }
        if min_heap.len() > kk {
            let ghost h1 = min_heap@;
            let ghost d0 = dropped;
            let smallest = min_heap.remove(0);
            proof {
                vstd::seq_lib::to_multiset_contains(h1, h1[0]);
                assert(h1.contains(h1[0]));
                vstd::seq_lib::to_multiset_remove(h1, 0);
                vstd::seq_lib::lemma_multiset_commutative(h1, d0);
                vstd::seq_lib::lemma_multiset_commutative(min_heap@, d0.push(smallest));
                vstd::seq_lib::to_multiset_build(d0, smallest);
                dropped = d0.push(smallest);
                assert((min_heap@ + dropped).to_multiset() =~= (h1 + d0).to_multiset());
                assert(min_heap@[0] == h1[1]);
            }
        }
        i += 1;
    }
    proof {
        assert(nums@.subrange(0, nums.len() as int) =~= nums@);
        let h = min_heap@;
        assert(h =~= seq![h[0]] + h.subrange(1, h.len() as int));
        lemma_pivot_is_kth(dropped, h[0], h.subrange(1, h.len() as int));
        assert(dropped + seq![h[0]] + h.subrange(1, h.len() as int) =~= dropped + h);
        vstd::seq_lib::lemma_multiset_commutative(dropped, h);
        vstd::seq_lib::lemma_multiset_commutative(h, dropped);
        assert((dropped + h).to_multiset() =~= (h + dropped).to_multiset());
        lemma_kth_permutation(dropped + h, nums@, h.len() as int, h[0]);
    }
    min_heap[0]
}

/// Returns the `k`-th largest element of `nums` (duplicates counted) by quickselect.
pub fn find_kth_largest_quickselect(nums: Vec<i32>, k: i32) -> (r: i32)
    requires
        1 <= k <= nums.len(),
    ensures
        is_kth_largest(nums@, k as int, r),
{
    let mut nums = nums;
    let ghost input = nums@;
    let n = nums.len();
    let target_idx = n - (k as usize);
    let r = quick_select(&mut nums, 0, n, target_idx);
    proof {
        let a = nums@;
        let t = target_idx as int;
        assert(a =~= a.subrange(0, t) + seq![r] + a.subrange(t + 1, n as int));
        lemma_pivot_is_kth(a.subrange(0, t), r, a.subrange(t + 1, n as int));
        assert(input.subrange(0, n as int) =~= input);
        assert(a.subrange(0, n as int) =~= a);
        lemma_kth_permutation(a, input, k as int, r);
    }
    r
}

} // verus!
