//! 3Sum: every distinct triple of values, taken from distinct positions of the input,
//! whose sum is zero. Sort, then sweep two pointers for each first value.

use vstd::prelude::*;
use vstd::multiset::Multiset;

verus! {

// ---------------------------------------------------------------------------
// Specification
// ---------------------------------------------------------------------------

/// `t` is a triple `[a, b, c]` with `a <= b <= c` and `a + b + c == 0`, whose values can be
/// taken from distinct positions of `nums` (duplicates counted).
pub open spec fn is_zero_triple(nums: Seq<i32>, t: Seq<i32>) -> bool {
    &&& t.len() == 3
    &&& t[0] <= t[1] <= t[2]
    &&& t[0] + t[1] + t[2] == 0
    &&& t.to_multiset().subset_of(nums.to_multiset())
}

/// Lexicographic order on triples.
pub open spec fn lex_less(a: Seq<i32>, b: Seq<i32>) -> bool {
    ||| a[0] < b[0]
    ||| a[0] == b[0] && a[1] < b[1]
    ||| a[0] == b[0] && a[1] == b[1] && a[2] < b[2]
}

/// `s` is in non-decreasing order.
pub open spec fn sorted(s: Seq<i32>) -> bool {
    forall|a: int, b: int| 0 <= a <= b < s.len() ==> s[a] <= s[b]
}

/// The values of `t` sit, in order, at three increasing positions of `s`.
spec fn found_at(s: Seq<i32>, t: Seq<i32>) -> bool {
    &&& t.len() == 3
    &&& exists|i: int, j: int, k: int|
        0 <= i < j < k < s.len() && #[trigger] s[i] == t[0] && #[trigger] s[j] == t[1] && #[trigger] s[k] == t[2]
}

/// A sorted triple of sum zero found at increasing positions of `s`.
spec fn zero_found(s: Seq<i32>, t: Seq<i32>) -> bool {
    &&& found_at(s, t)
    &&& t[0] <= t[1] <= t[2]
    &&& t[0] + t[1] + t[2] == 0
}

// ---------------------------------------------------------------------------
// Sorting
// ---------------------------------------------------------------------------

/// Sorts `v` with `slice::sort_unstable` from the standard library, whose documentation
/// promises a non-decreasing result made of the same elements.
#[verifier::external_body]
fn sort_unstable(v: &mut Vec<i32>)
    ensures
        sorted(final(v)@),
        final(v)@.to_multiset() == old(v)@.to_multiset(),
{
    v.sort_unstable();
}

// ---------------------------------------------------------------------------
// Positions and multisets
// ---------------------------------------------------------------------------

proof fn lemma_triple_multiset(a: i32, b: i32, c: i32, v: i32)
    ensures
        seq![a, b, c].to_multiset().count(v) == (if a == v { 1int } else { 0 }) + (if b == v { 1int } else { 0 }) + (if c == v { 1int } else { 0 }),
{
    let e = Seq::<i32>::empty();
    assert(seq![a, b, c] =~= e.push(a).push(b).push(c));
    vstd::seq_lib::to_multiset_build(e, a);
    vstd::seq_lib::to_multiset_build(e.push(a), b);
    vstd::seq_lib::to_multiset_build(e.push(a).push(b), c);
    vstd::seq_lib::to_multiset_len(e);
    vstd::multiset::lemma_multiset_empty_len(e.to_multiset());
}

/// Values at three distinct positions form a sub-multiset.
proof fn lemma_found_subset(s: Seq<i32>, i: int, j: int, k: int)
    requires
        0 <= i < j < k < s.len(),
    ensures
        seq![s[i], s[j], s[k]].to_multiset().subset_of(s.to_multiset()),
{
    let s1 = s.remove(k);
    let s2 = s1.remove(j);
    assert(s1[j] == s[j]);
    assert(s2[i] == s[i]);
    vstd::seq_lib::to_multiset_remove(s, k);
    vstd::seq_lib::to_multiset_remove(s1, j);
    vstd::seq_lib::to_multiset_remove(s2, i);
    vstd::seq_lib::to_multiset_contains(s, s[k]);
    vstd::seq_lib::to_multiset_contains(s1, s[j]);
    vstd::seq_lib::to_multiset_contains(s2, s[i]);
    assert(s.contains(s[k]));
    assert(s1.contains(s1[j]));
    assert(s2.contains(s2[i]));
    assert forall|v: i32| seq![s[i], s[j], s[k]].to_multiset().count(v) <= s.to_multiset().count(v) by {
        lemma_triple_multiset(s[i], s[j], s[k], v);
    }
}

/// A value occurring at least twice occurs at two increasing positions.
proof fn lemma_two_positions(s: Seq<i32>, v: i32) -> (ab: (int, int))
    requires
        s.to_multiset().count(v) >= 2,
    ensures
        0 <= ab.0 < ab.1 < s.len(),
        s[ab.0] == v,
        s[ab.1] == v,
{
    vstd::seq_lib::to_multiset_contains(s, v);
    let a = choose|a: int| 0 <= a < s.len() && s[a] == v;
    let s1 = s.remove(a);
    vstd::seq_lib::to_multiset_remove(s, a);
    vstd::seq_lib::to_multiset_contains(s1, v);
    let b1 = choose|b: int| 0 <= b < s1.len() && s1[b] == v;
    let b = if b1 < a { b1 } else { b1 + 1 };
    assert(s[b] == v);
    if a < b { (a, b) } else { (b, a) }
}

/// A value occurring at least three times occurs at three increasing positions.
proof fn lemma_three_positions(s: Seq<i32>, v: i32) -> (abc: (int, int, int))
    requires
        s.to_multiset().count(v) >= 3,
    ensures
        0 <= abc.0 < abc.1 < abc.2 < s.len(),
        s[abc.0] == v,
        s[abc.1] == v,
        s[abc.2] == v,
{
    vstd::seq_lib::to_multiset_contains(s, v);
    let a = choose|a: int| 0 <= a < s.len() && s[a] == v;
    let s1 = s.remove(a);
    vstd::seq_lib::to_multiset_remove(s, a);
    let (b1, c1) = lemma_two_positions(s1, v);
    let b = if b1 < a { b1 } else { b1 + 1 };
    let c = if c1 < a { c1 } else { c1 + 1 };
    assert(s[b] == v);
    assert(s[c] == v);
    if a < b {
        (a, b, c)
    } else if a < c {
        (b, a, c)
    } else {
        (b, c, a)
    }
}

/// For a sorted `s`, a sorted triple is a sub-multiset exactly when it sits at
/// increasing positions.
proof fn lemma_found_iff_subset(s: Seq<i32>, t: Seq<i32>)
    requires
        sorted(s),
        t.len() == 3,
        t[0] <= t[1] <= t[2],
    ensures
        found_at(s, t) <==> t.to_multiset().subset_of(s.to_multiset()),
{
    let x = t[0];
    let y = t[1];
    let z = t[2];
    assert(t =~= seq![x, y, z]);
    if found_at(s, t) {
        let (i, j, k) = choose|i: int, j: int, k: int|
            0 <= i < j < k < s.len() && #[trigger] s[i] == t[0] && #[trigger] s[j] == t[1] && #[trigger] s[k] == t[2];
        lemma_found_subset(s, i, j, k);
    }
    if t.to_multiset().subset_of(s.to_multiset()) {
        let m = s.to_multiset();
        lemma_triple_multiset(x, y, z, x);
        lemma_triple_multiset(x, y, z, y);
        lemma_triple_multiset(x, y, z, z);
        assert(m.count(x) >= t.to_multiset().count(x));
        assert(m.count(y) >= t.to_multiset().count(y));
        assert(m.count(z) >= t.to_multiset().count(z));
        if x < y && y < z {
            vstd::seq_lib::to_multiset_contains(s, x);
            vstd::seq_lib::to_multiset_contains(s, y);
            vstd::seq_lib::to_multiset_contains(s, z);
            let i = choose|i: int| 0 <= i < s.len() && s[i] == x;
            let j = choose|j: int| 0 <= j < s.len() && s[j] == y;
            let k = choose|k: int| 0 <= k < s.len() && s[k] == z;
            assert(i < j);
            assert(j < k);
            assert(found_at(s, t));
        } else if x == y && y < z {
            let (i, j) = lemma_two_positions(s, x);
            vstd::seq_lib::to_multiset_contains(s, z);
            let k = choose|k: int| 0 <= k < s.len() && s[k] == z;
            assert(j < k);
            assert(found_at(s, t));
        } else if x < y && y == z {
            vstd::seq_lib::to_multiset_contains(s, x);
            let i = choose|i: int| 0 <= i < s.len() && s[i] == x;
            let (j, k) = lemma_two_positions(s, y);
            assert(i < j);
            assert(found_at(s, t));
        } else {
            let (i, j, k) = lemma_three_positions(s, x);
            assert(found_at(s, t));
        }
    }
}

/// Sorting does not change which triples can be taken from the input.
proof fn lemma_zero_triple_sorted(nums: Seq<i32>, s: Seq<i32>, t: Seq<i32>)
    requires
        sorted(s),
        s.to_multiset() == nums.to_multiset(),
    ensures
        is_zero_triple(nums, t) <==> zero_found(s, t),
{
    if t.len() == 3 && t[0] <= t[1] <= t[2] {
        lemma_found_iff_subset(s, t);
    }
}

// ---------------------------------------------------------------------------
// The sweep
// ---------------------------------------------------------------------------

/// Every triple in `res` is lexicographically smaller than the ones after it.
spec fn strictly_increasing(res: Seq<Vec<i32>>) -> bool {
    forall|p: int, q: int| 0 <= p < q < res.len() ==> lex_less(#[trigger] res[p]@, #[trigger] res[q]@)
}

/// Appends, in increasing order, every zero-sum triple whose first value is `s[i]` and
/// whose other two values sit at increasing positions after `i`.
fn sweep_pairs(s: &Vec<i32>, i: usize, res: &mut Vec<Vec<i32>>)
    requires
        sorted(s@),
        i + 2 < s@.len(),
        i == 0 || s@[i - 1] < s@[i as int],
        forall|p: int| 0 <= p < old(res)@.len() ==> (#[trigger] old(res)@[p])@.len() == 3 && old(res)@[p]@[0] < s@[i as int],
        strictly_increasing(old(res)@),
    ensures
        final(res)@.len() >= old(res)@.len(),
        forall|p: int| 0 <= p < old(res)@.len() ==> #[trigger] final(res)@[p] == old(res)@[p],
        forall|p: int|
            old(res)@.len() <= p < final(res)@.len() ==> zero_found(s@, #[trigger] final(res)@[p]@) && final(res)@[p]@[0] == s@[i as int],
        strictly_increasing(final(res)@),
        forall|j: int, k: int|
            i < j < k < s@.len() && s@[i as int] + s@[j] + s@[k] == 0 ==> exists|p: int|
                old(res)@.len() <= p < final(res)@.len() && #[trigger] final(res)@[p]@ == seq![s@[i as int], #[trigger] s@[j], #[trigger] s@[k]],
{
    let n = s.len();
    let ghost base = res@.len();
    let ghost res0 = res@;
    let a = s[i];
    let mut left = i + 1;
    let mut right = n - 1;
    while left < right
        invariant
            sorted(s@),
            n == s@.len(),
            a == s@[i as int],
            i + 2 < n,
            i + 1 <= left <= right + 1,
            right < n,
            base == res0.len(),
            res@.len() >= base,
            forall|p: int| 0 <= p < base ==> #[trigger] res@[p] == res0[p],
            forall|p: int| 0 <= p < base ==> (#[trigger] res0[p])@.len() == 3 && res0[p]@[0] < a,
            forall|p: int|
                base <= p < res@.len() ==> zero_found(s@, #[trigger] res@[p]@) && res@[p]@[0] == a,
            strictly_increasing(res@),
            res@.len() > base && left < right ==> res@.last()@[1] < s@[left as int],
            forall|j: int, k: int|
                i < j < k < n && a + s@[j] + s@[k] == 0 && (j < left || k > right) ==> exists|p: int|
                    base <= p < res@.len() && #[trigger] res@[p]@ == seq![a, #[trigger] s@[j], #[trigger] s@[k]],
        decreases right + 1 - left,
    {
        let ghost l0 = left;
        let ghost r0 = right;
        let sum: i64 = a as i64 + s[left] as i64 + s[right] as i64;
        if sum < 0 {
            proof {
                assert forall|j: int, k: int|
                    i < j < k < n && a + s@[j] + s@[k] == 0 && (j < left + 1 || k > right) implies exists|p: int|
                        base <= p < res@.len() && #[trigger] res@[p]@ == seq![a, #[trigger] s@[j], #[trigger] s@[k]] by {
                    if j == left && k <= right {
                        assert(s@[k] <= s@[right as int]);
                    }
                }
            }
            left += 1;
        } else if sum > 0 {
            proof {
                assert forall|j: int, k: int|
                    i < j < k < n && a + s@[j] + s@[k] == 0 && (j < left || k > right - 1) implies exists|p: int|
                        base <= p < res@.len() && #[trigger] res@[p]@ == seq![a, #[trigger] s@[j], #[trigger] s@[k]] by {
                    if k == right && j >= left {
                        assert(s@[j] >= s@[left as int]);
                    }
                }
            }
            right -= 1;
        } else {
            let y = s[left];
            let z = s[right];
            let ghost res1 = res@;
            res.push(vec![a, y, z]);
            proof {
                let t = res@.last()@;
                assert(t =~= seq![a, y, z]);
                assert(s@[i as int] == t[0] && s@[left as int] == t[1] && s@[right as int] == t[2]);
                assert(zero_found(s@, t));
                assert forall|p: int, q: int| 0 <= p < q < res@.len() implies lex_less(#[trigger] res@[p]@, #[trigger] res@[q]@) by {
                    if q == res@.len() - 1 && p < res1.len() {
                        if res1.len() > base {
                            assert(res1.last()@[1] < y);
                            if p < res1.len() - 1 {
                                assert(lex_less(res1[p]@, res1.last()@));
                            }
                        } else {
                            assert(res@[p] == res0[p]);
                        }
                    } else if q < res1.len() {
                        assert(res@[p] == res1[p]);
                        assert(res@[q] == res1[q]);
                    }
                }
            }
            left += 1;
            right -= 1;
            proof {
                assert forall|j: int, k: int|
                    i < j < k < n && a + s@[j] + s@[k] == 0 && (j < left || k > right) implies exists|p: int|
                        base <= p < res@.len() && #[trigger] res@[p]@ == seq![a, #[trigger] s@[j], #[trigger] s@[k]] by {
                    if j < left - 1 || k > right + 1 {
                        let p = choose|p: int| base <= p < res1.len() && #[trigger] res1[p]@ == seq![a, s@[j], s@[k]];
                        assert(res@[p] == res1[p]);
                    } else {
                        assert(res@[res@.len() - 1]@ == seq![a, y, z]);
                        if j == left - 1 {
                            assert(s@[k] == z);
                        } else {
                            assert(s@[j] == y);
                        }
                    }
                }
            }
            while left < right && s[left] == s[left - 1]
                invariant
                    sorted(s@),
                    n == s@.len(),
                    a == s@[i as int],
                    i + 2 < n,
                    i + 2 <= left <= right + 1,
                    left > l0,
                    right < r0,
                    right < n,
                    s@[left - 1] == y,
                    a + y + z == 0,
                    base == res0.len(),
                    res@.len() > base,
                    res@.last()@ == seq![a, y, z],
                    forall|j: int, k: int|
                        i < j < k < n && a + s@[j] + s@[k] == 0 && (j < left || k > right) ==> exists|p: int|
                            base <= p < res@.len() && #[trigger] res@[p]@ == seq![a, #[trigger] s@[j], #[trigger] s@[k]],
                decreases right - left,
            {
                proof {
                    assert forall|j: int, k: int|
                        i < j < k < n && a + s@[j] + s@[k] == 0 && (j < left + 1 || k > right) implies exists|p: int|
                            base <= p < res@.len() && #[trigger] res@[p]@ == seq![a, #[trigger] s@[j], #[trigger] s@[k]] by {
                        if j == left && k <= right {
                            assert(s@[k] == z);
                            assert(res@[res@.len() - 1]@ == seq![a, y, z]);
                        }
                    }
                }
                left += 1;
            }
            while left < right && s[right] == s[right + 1]
                invariant
                    sorted(s@),
                    n == s@.len(),
                    a == s@[i as int],
                    i + 2 < n,
                    i + 2 <= left <= right + 1,
                    left > l0,
                    right < r0,
                    right + 1 < n,
                    s@[right + 1] == z,
                    a + y + z == 0,
                    base == res0.len(),
                    res@.len() > base,
                    res@.last()@ == seq![a, y, z],
                    left < right ==> y < s@[left as int],
                    forall|j: int, k: int|
                        i < j < k < n && a + s@[j] + s@[k] == 0 && (j < left || k > right) ==> exists|p: int|
                            base <= p < res@.len() && #[trigger] res@[p]@ == seq![a, #[trigger] s@[j], #[trigger] s@[k]],
                decreases right - left,
            {
                proof {
                    assert forall|j: int, k: int|
                        i < j < k < n && a + s@[j] + s@[k] == 0 && (j < left || k > right - 1) implies exists|p: int|
                            base <= p < res@.len() && #[trigger] res@[p]@ == seq![a, #[trigger] s@[j], #[trigger] s@[k]] by {
                        if k == right && j >= left {
                            assert(s@[j] == y);
                            assert(res@[res@.len() - 1]@ == seq![a, y, z]);
                        }
                    }
                }
                right -= 1;
            }
        }
    }
}

/// Returns every distinct triple `[a, b, c]` with `a <= b <= c` and `a + b + c == 0` whose
/// values can be taken from distinct positions of `nums`, in increasing lexicographic
/// order. Sums are computed without overflow.
pub fn three_sum(nums: Vec<i32>) -> (res: Vec<Vec<i32>>)
    ensures
        forall|p: int| 0 <= p < res@.len() ==> is_zero_triple(nums@, #[trigger] res@[p]@),
        forall|t: Seq<i32>| is_zero_triple(nums@, t) ==> exists|p: int| 0 <= p < res@.len() && #[trigger] res@[p]@ == t,
        forall|p: int, q: int| 0 <= p < q < res@.len() ==> lex_less(#[trigger] res@[p]@, #[trigger] res@[q]@),
{
    let mut res: Vec<Vec<i32>> = Vec::new();
    let ghost input = nums@;
    if nums.len() < 3 {
        proof {
            assert forall|t: Seq<i32>| is_zero_triple(input, t) implies exists|p: int| 0 <= p < res@.len() && #[trigger] res@[p]@ == t by {
                lemma_triple_multiset(t[0], t[1], t[2], t[0]);
                assert(t =~= seq![t[0], t[1], t[2]]);
                vstd::seq_lib::to_multiset_len(t);
                vstd::seq_lib::to_multiset_len(input);
                assert(t.to_multiset().subset_of(input.to_multiset()));
                lemma_subset_len(t.to_multiset(), input.to_multiset());
            }
        }
        return res;
    }
    let mut nums = nums;
    sort_unstable(&mut nums);
    proof {
        vstd::seq_lib::to_multiset_len(nums@);
        vstd::seq_lib::to_multiset_len(input);
    }
    let n = nums.len();
    let mut i: usize = 0;
    while i < n - 2 && nums[i] <= 0
        invariant
            n == nums@.len(),
            n >= 3,
            i <= n - 2,
            sorted(nums@),
            nums@.to_multiset() == input.to_multiset(),
            forall|p: int| 0 <= p < res@.len() ==> zero_found(nums@, #[trigger] res@[p]@),
            res@.len() > 0 ==> i > 0,
            forall|p: int| 0 <= p < res@.len() ==> (#[trigger] res@[p])@[0] <= nums@[i - 1],
            forall|t: Seq<i32>| #[trigger] zero_found(nums@, t) && i > 0 && t[0] <= nums@[i - 1] ==> exists|p: int| 0 <= p < res@.len() && #[trigger] res@[p]@ == t,
            strictly_increasing(res@),
        decreases n - i,
    {
        if i > 0 && nums[i] == nums[i - 1] {
            i += 1;
        } else {
            let ghost res0 = res@;
            sweep_pairs(&nums, i, &mut res);
            proof {
                lemma_extend_found(nums@, res0, res@, i as int);
                lemma_extend_coverage(nums@, res0, res@, i as int);
            }
            i += 1;
        }
    }
    proof {
        let s = nums@;
        assert forall|t: Seq<i32>| is_zero_triple(input, t) implies exists|p: int| 0 <= p < res@.len() && #[trigger] res@[p]@ == t by {
            lemma_zero_triple_sorted(input, s, t);
            let (i1, j, k) = choose|i1: int, j: int, k: int|
                0 <= i1 < j < k < s.len() && #[trigger] s[i1] == t[0] && #[trigger] s[j] == t[1] && #[trigger] s[k] == t[2];
            if i1 >= i {
                assert(s[i1] >= s[i as int]);
            }
            assert(t[0] <= s[i - 1]);
        }
        assert forall|p: int| 0 <= p < res@.len() implies is_zero_triple(input, #[trigger] res@[p]@) by {
            lemma_zero_triple_sorted(input, s, res@[p]@);
        }
    }
    res
}

/// After sweeping from position `i`, every triple found so far starts at most at `s[i]`.
proof fn lemma_extend_found(s: Seq<i32>, res0: Seq<Vec<i32>>, res: Seq<Vec<i32>>, i: int)
    requires
        0 <= i < s.len(),
        sorted(s),
        res.len() >= res0.len(),
        forall|p: int| 0 <= p < res0.len() ==> #[trigger] res[p] == res0[p],
        forall|p: int| 0 <= p < res0.len() ==> zero_found(s, #[trigger] res0[p]@),
        res0.len() > 0 ==> i > 0,
        forall|p: int| 0 <= p < res0.len() ==> (#[trigger] res0[p])@[0] <= s[i - 1],
        forall|p: int| res0.len() <= p < res.len() ==> zero_found(s, #[trigger] res[p]@) && res[p]@[0] == s[i],
    ensures
        forall|p: int| 0 <= p < res.len() ==> zero_found(s, #[trigger] res[p]@),
        forall|p: int| 0 <= p < res.len() ==> (#[trigger] res[p])@[0] <= s[i],
{
    assert forall|p: int| 0 <= p < res.len() implies zero_found(s, #[trigger] res[p]@) by {
        if p < res0.len() {
            assert(res[p] == res0[p]);
        }
    }
    assert forall|p: int| 0 <= p < res.len() implies (#[trigger] res[p])@[0] <= s[i] by {
        if p < res0.len() {
            assert(res[p] == res0[p]);
            assert(s[i - 1] <= s[i]);
        }
    }
}

/// After sweeping from position `i`, every triple whose first value is at most `s[i]`
/// has been found.
#[verifier::spinoff_prover]
proof fn lemma_extend_coverage(s: Seq<i32>, res0: Seq<Vec<i32>>, res: Seq<Vec<i32>>, i: int)
    requires
        sorted(s),
        0 <= i,
        i + 2 < s.len(),
        i == 0 || s[i - 1] < s[i],
        res.len() >= res0.len(),
        forall|p: int| 0 <= p < res0.len() ==> #[trigger] res[p] == res0[p],
        forall|t: Seq<i32>| #[trigger] zero_found(s, t) && i > 0 && t[0] <= s[i - 1] ==> exists|p: int| 0 <= p < res0.len() && #[trigger] res0[p]@ == t,
        forall|j: int, k: int|
            i < j < k < s.len() && s[i] + s[j] + s[k] == 0 ==> exists|p: int|
                res0.len() <= p < res.len() && #[trigger] res[p]@ == seq![s[i], #[trigger] s[j], #[trigger] s[k]],
    ensures
        forall|t: Seq<i32>| #[trigger] zero_found(s, t) && t[0] <= s[i] ==> exists|p: int| 0 <= p < res.len() && #[trigger] res[p]@ == t,
{
    assert forall|t: Seq<i32>| #[trigger] zero_found(s, t) && t[0] <= s[i] implies exists|p: int| 0 <= p < res.len() && #[trigger] res[p]@ == t by {
        if i > 0 && t[0] <= s[i - 1] {
            let p = choose|p: int| 0 <= p < res0.len() && #[trigger] res0[p]@ == t;
            assert(res[p] == res0[p]);
        } else {
            let (i1, j, k) = choose|i1: int, j: int, k: int|
                0 <= i1 < j < k < s.len() && #[trigger] s[i1] == t[0] && #[trigger] s[j] == t[1] && #[trigger] s[k] == t[2];
            if i1 < i {
                assert(s[i1] <= s[i - 1]);
            }
            assert(t[0] == s[i]);
            assert(i < j);
            assert(t =~= seq![s[i], s[j], s[k]]);
            let p = choose|p: int| res0.len() <= p < res.len() && #[trigger] res[p]@ == seq![s[i], s[j], s[k]];
        }
    }
}

proof fn lemma_subset_len(a: Multiset<i32>, b: Multiset<i32>)
    requires
        a.subset_of(b),
    ensures
        a.len() <= b.len(),
{
    assert(b =~= a.add(b.sub(a)));
}

} // verus!
