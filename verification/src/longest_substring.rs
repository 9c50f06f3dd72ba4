//! Length of the longest substring without repeating characters, by a sliding window
//! that remembers where each character was last seen.

use vstd::prelude::*;
use std::collections::HashMap;

verus! {

/// No character occurs twice in `s[i..j)`.
pub open spec fn distinct_window(s: Seq<char>, i: int, j: int) -> bool {
    forall|a: int, b: int| i <= a < b < j ==> s[a] != s[b]
}

/// `r` is the length of the longest substring of `s` without a repeated character.
pub open spec fn is_longest_distinct(s: Seq<char>, r: int) -> bool {
    &&& exists|i: int, j: int| 0 <= i <= j <= s.len() && j - i == r && #[trigger] distinct_window(s, i, j)
    &&& forall|i: int, j: int| 0 <= i <= j <= s.len() && #[trigger] distinct_window(s, i, j) ==> j - i <= r
}

/// Returns the length, in characters, of the longest substring of `s` in which no
/// character repeats.
pub fn find(s: String) -> (r: i32)
    requires
        s@.len() <= i32::MAX,
    ensures
        is_longest_distinct(s@, r as int),
{
    let ghost t = s@;
    let mut map: HashMap<u32, usize> = HashMap::new();
    let mut max_len: usize = 0;
    let mut left: usize = 0;
    let mut right: usize = 0;
    proof {
        assert(distinct_window(t, 0, 0));
    }
    for c in it: s.as_str().chars()
        invariant
            t == s@,
            it.seq() == t,
            right == it.index(),
            right <= t.len(),
            t.len() <= i32::MAX,
            left <= right,
            max_len <= right,
            distinct_window(t, left as int, right as int),
            forall|l: int| 0 <= l < left ==> !#[trigger] distinct_window(t, l, right as int),
            exists|i: int, j: int| 0 <= i <= j <= right && j - i == max_len && #[trigger] distinct_window(t, i, j),
            forall|i: int, j: int| 0 <= i <= j <= right && #[trigger] distinct_window(t, i, j) ==> j - i <= max_len,
            forall|x: int| 0 <= x < right ==> map@.contains_key(#[trigger] t[x] as u32),
            forall|k: u32| #[trigger] map@.contains_key(k) ==> {
                let p = map@[k] as int;
                &&& p < right
                &&& t[p] as u32 == k
                &&& forall|y: int| p < y < right ==> #[trigger] t[y] as u32 != k
            },
    {
        let ghost r0 = right;
        let ghost l0 = left;
        assert(t[right as int] == c);
        let key = c as u32;
        if let Some(pre) = map.get(&key) {
            let pre = *pre;
            if pre + 1 > left {
                left = pre + 1;
            }
        }
        proof {
            assert forall|a: int, b: int| left <= a < b < right + 1 implies t[a] != t[b] by {
                if b == right {
                    if map@.contains_key(key) {
                        assert(t[a] as u32 != key);
                    } else {
                        assert(map@.contains_key(t[a] as u32));
                    }
                } else {
                    assert(distinct_window(t, l0 as int, r0 as int));
                }
            }
            assert forall|l: int| 0 <= l < left implies !#[trigger] distinct_window(t, l, right + 1) by {
                if l < l0 {
                    assert(!distinct_window(t, l, r0 as int));
                } else {
                    let p = map@[key] as int;
                    assert(t[p] as u32 == key);
                    lemma_char_code_injective(t[p], t[right as int]);
                }
            }
        }
        map.insert(key, right);
        if right - left + 1 > max_len {
            max_len = right - left + 1;
        }
        right += 1;
        proof {
            assert forall|i: int, j: int| 0 <= i <= j <= right && #[trigger] distinct_window(t, i, j) implies j - i <= max_len by {
                if j < right {
                    assert(j - i <= max_len);
                } else if i < left {
                    assert(!distinct_window(t, i, right as int));
                }
            }
            if max_len == right - left {
                assert(distinct_window(t, left as int, right as int));
            }
        }
    }
    max_len as i32
}

/// Distinct characters have distinct code points.
proof fn lemma_char_code_injective(a: char, b: char)
    requires
        a as u32 == b as u32,
    ensures
        a == b,
{
}

} // verus!
