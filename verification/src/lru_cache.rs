//! A least-recently-used cache: a hash map from key to slot, and a doubly linked
//! list threaded through an arena of slots (indices in place of pointers), most
//! recently used first.

use vstd::prelude::*;
use std::collections::HashMap;
use vstd::multiset::Multiset;

verus! {

// ---------------------------------------------------------------------------
// Abstract behaviour: the cache as a sequence of (key, value) entries,
// most recently used first.
// ---------------------------------------------------------------------------

/// No key occurs twice among the entries.
pub open spec fn keys_distinct(e: Seq<(i32, i32)>) -> bool {
    forall|i: int, j: int| 0 <= i < e.len() && 0 <= j < e.len() && i != j ==> e[i].0 != e[j].0
}

/// Some entry holds `key`.
pub open spec fn has_key(e: Seq<(i32, i32)>, key: i32) -> bool {
    exists|i: int| 0 <= i < e.len() && e[i].0 == key
}

/// The position of `key` among the entries (meaningful where `has_key` holds).
pub open spec fn key_pos(e: Seq<(i32, i32)>, key: i32) -> int {
    choose|i: int| 0 <= i < e.len() && e[i].0 == key
}

/// What `get` returns on entries `e`: the value of `key`, or `-1` where it is absent.
pub open spec fn get_value(e: Seq<(i32, i32)>, key: i32) -> i32 {
    if has_key(e, key) {
        e[key_pos(e, key)].1
    } else {
        -1i32
    }
}

/// The entries after `get(key)`: a present key moves to the front, else nothing changes.
pub open spec fn get_entries(e: Seq<(i32, i32)>, key: i32) -> Seq<(i32, i32)> {
    if has_key(e, key) {
        seq![e[key_pos(e, key)]] + e.remove(key_pos(e, key))
    } else {
        e
    }
}

/// The entries after `put(key, value)` on a cache of capacity `cap`: the entry goes to
/// the front, replacing the old entry of that key; a new key on a full cache evicts
/// the least recently used entry (the last one).
pub open spec fn put_entries(e: Seq<(i32, i32)>, cap: nat, key: i32, value: i32) -> Seq<(i32, i32)> {
    if has_key(e, key) {
        seq![(key, value)] + e.remove(key_pos(e, key))
    } else if e.len() == cap {
        seq![(key, value)] + e.drop_last()
    } else {
        seq![(key, value)] + e
    }
}

// ---------------------------------------------------------------------------
// Laws of the abstract behaviour
// ---------------------------------------------------------------------------

/// A `put` keeps keys distinct and never grows the cache past its capacity; a new key
/// grows it by one unless it was full.
pub proof fn lemma_put_keeps_bounds(e: Seq<(i32, i32)>, cap: nat, key: i32, value: i32)
    requires
        keys_distinct(e),
        e.len() <= cap,
        cap >= 1,
    ensures
        keys_distinct(put_entries(e, cap, key, value)),
        put_entries(e, cap, key, value).len() <= cap,
        put_entries(e, cap, key, value).len() == if has_key(e, key) || e.len() == cap {
            e.len() as int
        } else {
            e.len() + 1int
        },
{
    let r = put_entries(e, cap, key, value);
    if has_key(e, key) {
        let p = key_pos(e, key);
        let rest = e.remove(p);
        assert(forall|j: int| 0 <= j < rest.len() ==> #[trigger] rest[j] == if j < p { e[j] } else { e[j + 1] });
        assert forall|a: int, b: int| 0 <= a < r.len() && 0 <= b < r.len() && a != b implies r[a].0 != r[b].0 by {
            if a > 0 && b > 0 {
                let a0 = if a - 1 < p { a - 1 } else { a };
                let b0 = if b - 1 < p { b - 1 } else { b };
                assert(r[a] == e[a0]);
                assert(r[b] == e[b0]);
            } else if a == 0 && b > 0 {
                let b0 = if b - 1 < p { b - 1 } else { b };
                assert(r[b] == e[b0]);
                assert(b0 != p);
            } else if b == 0 && a > 0 {
                let a0 = if a - 1 < p { a - 1 } else { a };
                assert(r[a] == e[a0]);
                assert(a0 != p);
            }
        }
    } else {
        assert forall|a: int, b: int| 0 <= a < r.len() && 0 <= b < r.len() && a != b implies r[a].0 != r[b].0 by {
            if a > 0 && b > 0 {
                assert(r[a] == e[a - 1]);
                assert(r[b] == e[b - 1]);
            } else if a == 0 && b > 0 {
                assert(r[b] == e[b - 1]);
            } else if b == 0 && a > 0 {
                assert(r[a] == e[a - 1]);
            }
        }
    }
}

/// Reading a key right after writing it gives back the value written, and the entry
/// is then the most recently used.
pub proof fn lemma_get_after_put(e: Seq<(i32, i32)>, cap: nat, key: i32, value: i32)
    requires
        keys_distinct(e),
        e.len() <= cap,
        cap >= 1,
    ensures
        get_value(put_entries(e, cap, key, value), key) == value,
        get_entries(put_entries(e, cap, key, value), key) == put_entries(e, cap, key, value),
{
    let r = put_entries(e, cap, key, value);
    lemma_put_keeps_bounds(e, cap, key, value);
    assert(r[0] == (key, value));
    assert(has_key(r, key));
    assert(key_pos(r, key) == 0);
    assert(get_entries(r, key) =~= r);
}

/// Putting a new key into a full cache evicts exactly the least recently used key; every
/// other key stays.
pub proof fn lemma_put_evicts_least_recent(e: Seq<(i32, i32)>, cap: nat, key: i32, value: i32)
    requires
        keys_distinct(e),
        e.len() == cap,
        cap >= 1,
        !has_key(e, key),
    ensures
        !has_key(put_entries(e, cap, key, value), e.last().0),
        forall|k: i32| k != e.last().0 && has_key(e, k) ==> has_key(put_entries(e, cap, key, value), k),
        has_key(put_entries(e, cap, key, value), key),
{
    let r = put_entries(e, cap, key, value);
    assert(r[0].0 == key);
    if has_key(r, e.last().0) {
        let j = choose|j: int| 0 <= j < r.len() && r[j].0 == e.last().0;
        if j > 0 {
            assert(r[j] == e[j - 1]);
        }
    }
    assert forall|k: i32| k != e.last().0 && has_key(e, k) implies has_key(r, k) by {
        let j = choose|j: int| 0 <= j < e.len() && e[j].0 == k;
        assert(r[j + 1] == e[j]);
    }
}

/// A `get` only reorders the entries: the same (key, value) pairs remain.
pub proof fn lemma_get_keeps_entries(e: Seq<(i32, i32)>, key: i32)
    ensures
        get_entries(e, key).to_multiset() == e.to_multiset(),
{
    if has_key(e, key) {
        let p = key_pos(e, key);
        vstd::seq_lib::lemma_multiset_commutative(seq![e[p]], e.remove(p));
        vstd::seq_lib::to_multiset_remove(e, p);
        vstd::seq_lib::to_multiset_contains(e, e[p]);
        assert(e.contains(e[p]));
        let none = Seq::<(i32, i32)>::empty();
        assert(seq![e[p]] =~= none.push(e[p]));
        vstd::seq_lib::to_multiset_build(none, e[p]);
        vstd::seq_lib::to_multiset_len(none);
        vstd::multiset::lemma_multiset_empty_len(none.to_multiset());
        assert(seq![e[p]].to_multiset() =~= Multiset::empty().insert(e[p]));
        assert(get_entries(e, key).to_multiset() =~= e.to_multiset());
    }
}

/// Key `k1` is used more recently than key `k2` (comes before it among the entries).
pub open spec fn precedes(e: Seq<(i32, i32)>, k1: i32, k2: i32) -> bool {
    exists|i: int, j: int| 0 <= i < j < e.len() && #[trigger] e[i].0 == k1 && #[trigger] e[j].0 == k2
}

/// Taking the entry at `p` out and putting `w` in front keeps the recency order of every
/// other key.
proof fn lemma_order_move_front(e: Seq<(i32, i32)>, p: int, w: (i32, i32), k1: i32, k2: i32)
    requires
        0 <= p < e.len(),
        k1 != e[p].0,
        k2 != e[p].0,
        k1 != w.0,
        k2 != w.0,
    ensures
        precedes(e, k1, k2) <==> precedes(seq![w] + e.remove(p), k1, k2),
{
    let r = seq![w] + e.remove(p);
    assert(forall|j: int| 0 <= j < e.len() - 1 ==> #[trigger] e.remove(p)[j] == if j < p { e[j] } else { e[j + 1] });
    assert(forall|j: int| 1 <= j < r.len() ==> #[trigger] r[j] == e.remove(p)[j - 1]);
    if precedes(e, k1, k2) {
        let (i, j) = choose|i: int, j: int| 0 <= i < j < e.len() && #[trigger] e[i].0 == k1 && #[trigger] e[j].0 == k2;
        let i2 = if i < p { i + 1 } else { i };
        let j2 = if j < p { j + 1 } else { j };
        assert(r[i2] == e[i]);
        assert(r[j2] == e[j]);
        assert(precedes(r, k1, k2));
    }
    if precedes(r, k1, k2) {
        let (i, j) = choose|i: int, j: int| 0 <= i < j < r.len() && #[trigger] r[i].0 == k1 && #[trigger] r[j].0 == k2;
        let i2 = if i - 1 < p { i - 1 } else { i };
        let j2 = if j - 1 < p { j - 1 } else { j };
        assert(e[i2] == r[i]);
        assert(e[j2] == r[j]);
        assert(precedes(e, k1, k2));
    }
}

/// Putting `w` in front keeps the recency order of every other key.
proof fn lemma_order_prepend(e: Seq<(i32, i32)>, w: (i32, i32), k1: i32, k2: i32)
    requires
        k1 != w.0,
        k2 != w.0,
    ensures
        precedes(e, k1, k2) <==> precedes(seq![w] + e, k1, k2),
{
    let r = seq![w] + e;
    if precedes(e, k1, k2) {
        let (i, j) = choose|i: int, j: int| 0 <= i < j < e.len() && #[trigger] e[i].0 == k1 && #[trigger] e[j].0 == k2;
        assert(r[i + 1] == e[i]);
        assert(r[j + 1] == e[j]);
    }
    if precedes(r, k1, k2) {
        let (i, j) = choose|i: int, j: int| 0 <= i < j < r.len() && #[trigger] r[i].0 == k1 && #[trigger] r[j].0 == k2;
        assert(e[i - 1] == r[i]);
        assert(e[j - 1] == r[j]);
    }
}

/// Reading a present key makes it the most recently used entry, with its stored value,
/// keeps every key, and keeps the recency order of all other keys.
pub proof fn lemma_get_moves_key_to_front(e: Seq<(i32, i32)>, key: i32)
    requires
        keys_distinct(e),
        has_key(e, key),
    ensures
        get_entries(e, key).len() == e.len(),
        forall|i: int| 0 <= i < e.len() && e[i].0 == key ==> get_entries(e, key)[0] == e[i] && get_value(e, key) == e[i].1,
        forall|k: i32| has_key(get_entries(e, key), k) <==> has_key(e, k),
        forall|k1: i32, k2: i32|
            k1 != key && k2 != key ==> (precedes(e, k1, k2) <==> #[trigger] precedes(get_entries(e, key), k1, k2)),
{
    let p = key_pos(e, key);
    let r = get_entries(e, key);
    assert(r =~= seq![e[p]] + e.remove(p));
    assert(forall|j: int| 0 <= j < e.len() - 1 ==> #[trigger] e.remove(p)[j] == if j < p { e[j] } else { e[j + 1] });
    assert forall|k: i32| has_key(r, k) <==> has_key(e, k) by {
        if has_key(e, k) {
            let i = choose|i: int| 0 <= i < e.len() && e[i].0 == k;
            if i < p {
                assert(r[i + 1] == e[i]);
            } else if i == p {
                assert(r[0] == e[i]);
            } else {
                assert(r[i] == e[i]);
            }
        }
        if has_key(r, k) {
            let i = choose|i: int| 0 <= i < r.len() && r[i].0 == k;
            if i == 0 {
                assert(e[p] == r[i]);
            } else if i - 1 < p {
                assert(e[i - 1] == r[i]);
            } else {
                assert(e[i] == r[i]);
            }
        }
    }
    assert forall|k1: i32, k2: i32|
        k1 != key && k2 != key implies (precedes(e, k1, k2) <==> #[trigger] precedes(r, k1, k2)) by {
        lemma_order_move_front(e, p, e[p], k1, k2);
    }
}

/// Writing a key that is present replaces its value, makes it the most recently used
/// entry, keeps every key and the recency order of all other keys.
pub proof fn lemma_put_existing_moves_key_to_front(e: Seq<(i32, i32)>, cap: nat, key: i32, value: i32)
    requires
        keys_distinct(e),
        has_key(e, key),
    ensures
        put_entries(e, cap, key, value).len() == e.len(),
        put_entries(e, cap, key, value)[0] == (key, value),
        forall|k: i32| has_key(put_entries(e, cap, key, value), k) <==> has_key(e, k),
        forall|k1: i32, k2: i32|
            k1 != key && k2 != key ==> (precedes(e, k1, k2) <==> #[trigger] precedes(put_entries(e, cap, key, value), k1, k2)),
{
    let p = key_pos(e, key);
    let r = put_entries(e, cap, key, value);
    assert(r =~= seq![(key, value)] + e.remove(p));
    assert(forall|j: int| 0 <= j < e.len() - 1 ==> #[trigger] e.remove(p)[j] == if j < p { e[j] } else { e[j + 1] });
    assert forall|k: i32| has_key(r, k) <==> has_key(e, k) by {
        if has_key(e, k) {
            let i = choose|i: int| 0 <= i < e.len() && e[i].0 == k;
            if i < p {
                assert(r[i + 1] == e[i]);
            } else if i == p {
                assert(r[0].0 == k);
            } else {
                assert(r[i] == e[i]);
            }
        }
        if has_key(r, k) {
            let i = choose|i: int| 0 <= i < r.len() && r[i].0 == k;
            if i == 0 {
                assert(e[p].0 == k);
            } else if i - 1 < p {
                assert(e[i - 1] == r[i]);
            } else {
                assert(e[i] == r[i]);
            }
        }
    }
    assert forall|k1: i32, k2: i32|
        k1 != key && k2 != key implies (precedes(e, k1, k2) <==> #[trigger] precedes(r, k1, k2)) by {
        lemma_order_move_front(e, p, (key, value), k1, k2);
    }
}

/// Writing a new key puts it first and keeps the recency order of all other keys; below
/// capacity every old key stays, at capacity exactly the least recently used one goes.
pub proof fn lemma_put_new_key_order(e: Seq<(i32, i32)>, cap: nat, key: i32, value: i32)
    requires
        keys_distinct(e),
        e.len() <= cap,
        cap >= 1,
        !has_key(e, key),
    ensures
        put_entries(e, cap, key, value)[0] == (key, value),
        e.len() < cap ==> forall|k: i32| #[trigger] has_key(put_entries(e, cap, key, value), k) <==> (has_key(e, k) || k == key),
        forall|k1: i32, k2: i32|
            k1 != key && k2 != key && has_key(put_entries(e, cap, key, value), k1) && has_key(put_entries(e, cap, key, value), k2)
                ==> (precedes(e, k1, k2) <==> #[trigger] precedes(put_entries(e, cap, key, value), k1, k2)),
{
    let r = put_entries(e, cap, key, value);
    if e.len() < cap {
        assert(r =~= seq![(key, value)] + e);
        assert forall|k: i32| #[trigger] has_key(r, k) <==> (has_key(e, k) || k == key) by {
            if has_key(e, k) {
                let i = choose|i: int| 0 <= i < e.len() && e[i].0 == k;
                assert(r[i + 1] == e[i]);
            }
            if has_key(r, k) {
                let i = choose|i: int| 0 <= i < r.len() && r[i].0 == k;
                if i > 0 {
                    assert(e[i - 1] == r[i]);
                }
            }
            if k == key {
                assert(r[0].0 == k);
            }
        }
        assert forall|k1: i32, k2: i32|
            k1 != key && k2 != key && has_key(r, k1) && has_key(r, k2) implies (precedes(e, k1, k2) <==> #[trigger] precedes(r, k1, k2)) by {
            lemma_order_prepend(e, (key, value), k1, k2);
        }
    } else {
        let n = e.len() - 1;
        assert(e.drop_last() =~= e.remove(n));
        assert(r =~= seq![(key, value)] + e.remove(n));
        assert forall|k1: i32, k2: i32|
            k1 != key && k2 != key && has_key(r, k1) && has_key(r, k2) implies (precedes(e, k1, k2) <==> #[trigger] precedes(r, k1, k2)) by {
            lemma_put_evicts_least_recent(e, cap, key, value);
            lemma_order_move_front(e, n, (key, value), k1, k2);
        }
    }
}

/// A key just read survives the next write of a new key, unless the capacity is one:
/// eviction always takes the least recently used entry, never the one just read.
pub proof fn lemma_get_protects_from_eviction(e: Seq<(i32, i32)>, cap: nat, key: i32, k2: i32, v2: i32)
    requires
        keys_distinct(e),
        e.len() <= cap,
        cap >= 2,
        has_key(e, key),
        k2 != key,
    ensures
        has_key(put_entries(get_entries(e, key), cap, k2, v2), key),
        get_value(put_entries(get_entries(e, key), cap, k2, v2), key) == get_value(e, key),
{
    let p = key_pos(e, key);
    let g = get_entries(e, key);
    assert(g =~= seq![e[p]] + e.remove(p));
    assert(g[0] == e[p]);
    lemma_get_moves_key_to_front(e, key);
    let r = put_entries(g, cap, k2, v2);
    if has_key(g, k2) {
        let q = key_pos(g, k2);
        assert(q != 0);
        assert(r[1] == g[0]);
    } else if g.len() == cap {
        assert(r[1] == g[0]);
    } else {
        assert(r[1] == g[0]);
    }
    assert(r[1].0 == key);
    assert(has_key(r, key));
    lemma_get_after_put_distinct(g, cap, k2, v2);
    assert(key_pos(r, key) == 1);
}

/// Keys stay distinct after moving the one just read to the front.
proof fn lemma_get_after_put_distinct(g: Seq<(i32, i32)>, cap: nat, k2: i32, v2: i32)
    requires
        keys_distinct(g),
        g.len() <= cap,
        cap >= 1,
    ensures
        keys_distinct(put_entries(g, cap, k2, v2)),
{
    lemma_put_keeps_bounds(g, cap, k2, v2);
}

// ---------------------------------------------------------------------------
// Representation
// ---------------------------------------------------------------------------

#[derive(Clone, Copy)]
struct Node {
    key: i32,
    value: i32,
    prev: usize,
    next: usize,
}

/// An LRU cache of `i32` keys and values with a fixed capacity.
pub struct LRUCache {
    capacity: usize,
    map: HashMap<i32, usize>,
    pool: Vec<Node>,
    head: usize,
    tail: usize,
    /// The slots on the list, from the most to the least recently used.
    order: Ghost<Seq<usize>>,
}

/// The slots of `order` form a doubly linked list between the sentinels `head` and `tail`.
spec fn linked(pool: Seq<Node>, head: usize, tail: usize, order: Seq<usize>) -> bool {
    let n = order.len();
    &&& pool[head as int].next == (if n == 0 {
        tail
    } else {
        order[0]
    })
    &&& pool[tail as int].prev == (if n == 0 {
        head
    } else {
        order[n - 1]
    })
    &&& forall|i: int|
        #![trigger order[i]]
        0 <= i < n ==> pool[order[i] as int].prev == (if i == 0 {
            head
        } else {
            order[i - 1]
        })
    &&& forall|i: int|
        #![trigger order[i]]
        0 <= i < n ==> pool[order[i] as int].next == (if i == n - 1 {
            tail
        } else {
            order[i + 1]
        })
}

/// The slots of `order` are distinct, lie strictly between the sentinels, and are in range.
spec fn slots_ok(pool: Seq<Node>, head: usize, tail: usize, order: Seq<usize>) -> bool {
    &&& head < pool.len()
    &&& tail < pool.len()
    &&& head != tail
    &&& order.no_duplicates()
    &&& forall|i: int|
        #![trigger order[i]]
        0 <= i < order.len() ==> order[i] < pool.len() && order[i] != head && order[i] != tail
}

/// Every slot on the list lies in `1..=bound`.
spec fn in_range(order: Seq<usize>, bound: int) -> bool {
    forall|y: usize| #[trigger] order.contains(y) ==> 1 <= y <= bound
}

/// The map sends each key on the list to its slot, and nothing else.
spec fn map_ok(map: Map<i32, usize>, pool: Seq<Node>, order: Seq<usize>) -> bool {
    &&& map.dom().finite()
    &&& map.len() == order.len()
    &&& forall|y: usize|
        #[trigger] order.contains(y) ==> map.contains_key(pool[y as int].key) && map[pool[y as int].key] == y
    &&& forall|k: i32|
        #[trigger] map.contains_key(k) ==> order.contains(map[k]) && pool[map[k] as int].key == k
}

spec fn entries_of(pool: Seq<Node>, order: Seq<usize>) -> Seq<(i32, i32)> {
    order.map_values(|i: usize| (pool[i as int].key, pool[i as int].value))
}

/// Every node keeps its key and value.
spec fn same_payload(a: Seq<Node>, b: Seq<Node>) -> bool {
    &&& a.len() == b.len()
    &&& forall|j: int|
        0 <= j < a.len() ==> #[trigger] b[j].key == a[j].key && b[j].value == a[j].value
}

/// Both lists hold the same slots.
spec fn same_slots(a: Seq<usize>, b: Seq<usize>) -> bool {
    forall|y: usize| #[trigger] a.contains(y) <==> #[trigger] b.contains(y)
}

impl View for LRUCache {
    type V = Seq<(i32, i32)>;

    /// The entries, most recently used first.
    closed spec fn view(&self) -> Seq<(i32, i32)> {
        entries_of(self.pool@, self.order@)
    }
}

impl LRUCache {
    /// The capacity the cache was made with.
    pub closed spec fn cap(&self) -> nat {
        self.capacity as nat
    }

    spec fn shape_ok(&self) -> bool {
        &&& self.capacity >= 1
        &&& self.head == 0
        &&& self.tail == self.capacity + 1
        &&& self.pool@.len() == self.capacity + 2
    }

    /// The representation invariant.
    pub closed spec fn wf(&self) -> bool {
        let o = self.order@;
        &&& self.shape_ok()
        &&& o.len() <= self.capacity
        &&& slots_ok(self.pool@, self.head, self.tail, o)
        &&& in_range(o, o.len() as int)
        &&& linked(self.pool@, self.head, self.tail, o)
        &&& map_ok(self.map@, self.pool@, o)
    }

    /// A well-formed cache has distinct keys and holds at most `cap()` entries.
    pub proof fn lemma_wf_entries(&self)
        requires
            self.wf(),
        ensures
            keys_distinct(self@),
            self@.len() <= self.cap(),
            self.cap() >= 1,
    {
        let o = self.order@;
        assert forall|i: int, j: int|
            0 <= i < self@.len() && 0 <= j < self@.len() && i != j implies self@[i].0
            != self@[j].0 by {
            assert(o.contains(o[i]));
            assert(o.contains(o[j]));
        }
    }

    /// With distinct keys, the entry at index `i` holding `key` is the one `key_pos` names.
    proof fn lemma_key_pos(&self, key: i32, i: int)
        requires
            self.wf(),
            0 <= i < self@.len(),
            self@[i].0 == key,
        ensures
            has_key(self@, key),
            key_pos(self@, key) == i,
    {
        self.lemma_wf_entries();
    }

    /// A key is among the entries exactly when the map holds it, at the position of its slot.
    proof fn lemma_lookup(&self, key: i32)
        requires
            self.wf(),
        ensures
            has_key(self@, key) <==> self.map@.contains_key(key),
            self.map@.contains_key(key) ==> {
                let i = key_pos(self@, key);
                &&& 0 <= i < self.order@.len()
                &&& self.order@[i] == self.map@[key]
            },
    {
        let o = self.order@;
        if has_key(self@, key) {
            let j = choose|j: int| 0 <= j < self@.len() && self@[j].0 == key;
            assert(o.contains(o[j]));
        }
        if self.map@.contains_key(key) {
            let y = self.map@[key];
            assert(o.contains(y));
            let j = choose|j: int| 0 <= j < o.len() && o[j] == y;
            self.lemma_key_pos(key, j);
        }
    }

    /// Creates an empty cache that holds up to `capacity` entries.
    pub fn new(capacity: i32) -> (s: Self)
        requires
            capacity >= 1,
        ensures
            s.wf(),
            s@ == Seq::<(i32, i32)>::empty(),
            s.cap() == capacity,
    {
        let capacity = capacity as usize;
        let mut pool: Vec<Node> = Vec::new();
        let mut c: usize = 0;
        while c < capacity + 2
            invariant
                c <= capacity + 2,
                pool@.len() == c,
                capacity < usize::MAX - 2,
            decreases capacity + 2 - c,
        {
            pool.push(Node { key: 0, value: 0, prev: 0, next: 0 });
            c += 1;
        }
        let head: usize = 0;
        let tail: usize = capacity + 1;
        pool.set(head, Node { key: 0, value: 0, prev: 0, next: tail });
        pool.set(tail, Node { key: 0, value: 0, prev: head, next: 0 });
        let s = LRUCache {
            capacity,
            map: HashMap::with_capacity(capacity),
            pool,
            head,
            tail,
            order: Ghost(Seq::empty()),
        };
        proof {
            assert(s@ =~= Seq::<(i32, i32)>::empty());
            assert(s.map@.dom() =~= Set::<i32>::empty());
        }
        s
    }

    /// Returns the value of `key` and makes it the most recently used, or `-1` where
    /// the key is absent (then nothing changes).
    pub fn get(&mut self, key: i32) -> (r: i32)
        requires
            old(self).wf(),
        ensures
            final(self).wf(),
            final(self).cap() == old(self).cap(),
            r == get_value(old(self)@, key),
            final(self)@ == get_entries(old(self)@, key),
            has_key(old(self)@, key) ==> final(self)@[0] == (key, r),
            forall|k: i32| #[trigger] has_key(final(self)@, k) <==> has_key(old(self)@, k),
            forall|k1: i32, k2: i32|
                k1 != key && k2 != key ==> (precedes(old(self)@, k1, k2) <==> #[trigger] precedes(final(self)@, k1, k2)),
    {
        proof {
            self.lemma_lookup(key);
            self.lemma_wf_entries();
            if has_key(self@, key) {
                lemma_get_moves_key_to_front(self@, key);
                assert(self@[key_pos(self@, key)].0 == key);
            }
        }
        if let Some(slot) = self.map.get(&key) {
            let node_idx = *slot;
            let ghost i = key_pos(self@, key);
            let val = self.pool[node_idx].value;
            self.move_to_front(node_idx, Ghost(i));
            return val;
        }
        -1
    }

    /// Stores `value` under `key` and makes it the most recently used; a new key on a
    /// full cache first evicts the least recently used entry.
    pub fn put(&mut self, key: i32, value: i32)
        requires
            old(self).wf(),
        ensures
            final(self).wf(),
            final(self).cap() == old(self).cap(),
            final(self)@ == put_entries(old(self)@, old(self).cap(), key, value),
            final(self)@[0] == (key, value),
            forall|k1: i32, k2: i32|
                k1 != key && k2 != key && has_key(final(self)@, k1) && has_key(final(self)@, k2)
                    ==> (precedes(old(self)@, k1, k2) <==> #[trigger] precedes(final(self)@, k1, k2)),
    {
        proof {
            self.lemma_lookup(key);
            self.lemma_wf_entries();
            if has_key(self@, key) {
                lemma_put_existing_moves_key_to_front(self@, self.cap(), key, value);
            } else {
                lemma_put_new_key_order(self@, self.cap(), key, value);
            }
        }
        if let Some(slot) = self.map.get(&key) {
            let node_idx = *slot;
            let ghost i = key_pos(self@, key);
            let ghost e0 = self@;
            self.set_value(node_idx, value, Ghost(i));
            self.move_to_front(node_idx, Ghost(i));
            proof {
                assert(self@ =~= seq![(key, value)] + e0.remove(i));
            }
        } else {
            let ghost o0 = self.order@;
            let new_node_idx = if self.map.len() == self.capacity {
                let lru_idx = self.pool[self.tail].prev;
                self.evict_last();
                lru_idx
            } else {
                let fresh = self.map.len() + 1;
                proof {
                    if o0.contains(fresh) {
                        assert(fresh <= o0.len());
                    }
                }
                fresh
            };
            self.attach_front(new_node_idx, key, value);
        }
    }

    /// Overwrites the value held in the slot at list position `i`.
    fn set_value(&mut self, idx: usize, value: i32, Ghost(i): Ghost<int>)
        requires
            old(self).wf(),
            0 <= i < old(self).order@.len(),
            old(self).order@[i] == idx,
        ensures
            final(self).wf(),
            final(self).capacity == old(self).capacity,
            final(self).order@ == old(self).order@,
            final(self)@ == old(self)@.update(i, (old(self)@[i].0, value)),
    {
        let ghost p0 = self.pool@;
        let mut node = self.pool[idx];
        node.value = value;
        self.pool.set(idx, node);
        proof {
            let o = self.order@;
            let p = self.pool@;
            assert(forall|y: int| 0 <= y < p.len() ==> #[trigger] p[y].prev == p0[y].prev && p[y].next == p0[y].next && p[y].key == p0[y].key);
            assert(linked(p, self.head, self.tail, o));
            assert(map_ok(self.map@, p, o));
            assert(self@ =~= old(self)@.update(i, (old(self)@[i].0, value)));
        }
    }

    /// Unlinks the slot at list position `i` and relinks it at the front.
    fn move_to_front(&mut self, idx: usize, Ghost(i): Ghost<int>)
        requires
            old(self).wf(),
            0 <= i < old(self).order@.len(),
            old(self).order@[i] == idx,
        ensures
            final(self).wf(),
            final(self).capacity == old(self).capacity,
            final(self)@ == seq![old(self)@[i]] + old(self)@.remove(i),
    {
        let ghost o = self.order@;
        let ghost p0 = self.pool@;
        proof {
            assert(o.contains(o[i]));
        }
        self.unlink(idx);
        proof {
            lemma_unlink(p0, self.pool@, self.head, self.tail, o, i);
        }
        let ghost p1 = self.pool@;
        let ghost o1 = o.remove(i);
        proof {
            assert(!o1.contains(idx)) by {
                if o1.contains(idx) {
                    let j = choose|j: int| 0 <= j < o1.len() && o1[j] == idx;
                    assert(o1[j] == if j < i { o[j] } else { o[j + 1] });
                }
            }
        }
        self.push_front(idx);
        proof {
            lemma_push_front(p1, self.pool@, self.head, self.tail, o1, idx);
            let o2 = seq![idx] + o1;
            self.order = Ghost(o2);
            lemma_move_same_slots(o, i);
            lemma_map_ok_transfer(self.map@, p0, self.pool@, o, o2);
            lemma_entries_move(p0, self.pool@, o, i);
        }
    }

    /// Unlinks the least recently used slot and drops its key from the map.
    fn evict_last(&mut self)
        requires
            old(self).wf(),
            old(self).order@.len() == old(self).capacity,
        ensures
            final(self).shape_ok(),
            final(self).capacity == old(self).capacity,
            final(self).order@ == old(self).order@.drop_last(),
            slots_ok(final(self).pool@, final(self).head, final(self).tail, final(self).order@),
            linked(final(self).pool@, final(self).head, final(self).tail, final(self).order@),
            map_ok(final(self).map@, final(self).pool@, final(self).order@),
            in_range(final(self).order@, old(self).order@.len() as int),
            !final(self).order@.contains(old(self).order@.last()),
            1 <= old(self).order@.last() <= old(self).order@.len(),
            old(self).pool@[old(self).tail as int].prev == old(self).order@.last(),
            !final(self).map@.contains_key(old(self)@.last().0),
            forall|k: i32| k != old(self)@.last().0 ==> (#[trigger] final(self).map@.contains_key(k) <==> old(self).map@.contains_key(k)),
            final(self)@ == old(self)@.drop_last(),
    {
        let ghost o = self.order@;
        let ghost p0 = self.pool@;
        let ghost n = o.len();
        let lru_idx = self.pool[self.tail].prev;
        proof {
            assert(o.contains(o[n - 1]));
        }
        self.unlink(lru_idx);
        proof {
            lemma_unlink(p0, self.pool@, self.head, self.tail, o, n - 1);
        }
        let lru_key = self.pool[lru_idx].key;
        let ghost m0 = self.map@;
        self.map.remove(&lru_key);
        proof {
            let o1 = o.remove(n - 1);
            assert(o1 =~= o.drop_last());
            self.order = Ghost(o1);
            m0.lemma_remove_key_len(lru_key);
            assert forall|y: usize| o1.contains(y) <==> o.contains(y) && y != lru_idx by {
                if o1.contains(y) {
                    let j = choose|j: int| 0 <= j < o1.len() && o1[j] == y;
                    assert(o[j] == y);
                }
                if o.contains(y) && y != lru_idx {
                    let j = choose|j: int| 0 <= j < o.len() && o[j] == y;
                    assert(o1[j] == y);
                }
            }
            let p = self.pool@;
            let m = self.map@;
            assert forall|y: usize| #[trigger] o1.contains(y) implies m.contains_key(p[y as int].key) && m[p[y as int].key] == y by {
                assert(o.contains(y));
                assert(p[y as int].key == p0[y as int].key);
            }
            assert forall|k: i32| #[trigger] m.contains_key(k) implies o1.contains(m[k]) && p[m[k] as int].key == k by {
                assert(m0.contains_key(k));
                assert(p[m[k] as int].key == p0[m[k] as int].key);
            }
            assert(self@ =~= old(self)@.drop_last());
        }
    }

    /// Writes `key` and `value` into the free slot `idx`, maps the key to it and links
    /// it at the front.
    fn attach_front(&mut self, idx: usize, key: i32, value: i32)
        requires
            old(self).shape_ok(),
            old(self).order@.len() < old(self).capacity,
            1 <= idx <= old(self).order@.len() + 1,
            !old(self).order@.contains(idx),
            in_range(old(self).order@, old(self).order@.len() + 1int),
            slots_ok(old(self).pool@, old(self).head, old(self).tail, old(self).order@),
            linked(old(self).pool@, old(self).head, old(self).tail, old(self).order@),
            map_ok(old(self).map@, old(self).pool@, old(self).order@),
            !old(self).map@.contains_key(key),
        ensures
            final(self).wf(),
            final(self).capacity == old(self).capacity,
            final(self)@ == seq![(key, value)] + old(self)@,
    {
        let ghost o = self.order@;
        let ghost p0 = self.pool@;
        let mut node = self.pool[idx];
        node.key = key;
        node.value = value;
        self.pool.set(idx, node);
        let ghost p1 = self.pool@;
        proof {
            assert forall|j: int| #![trigger o[j]] 0 <= j < o.len() implies o[j] != idx by {
                assert(o.contains(o[j]));
            }
            assert(linked(p1, self.head, self.tail, o));
        }
        let ghost m0 = self.map@;
        self.map.insert(key, idx);
        self.push_front(idx);
        proof {
            lemma_push_front(p1, self.pool@, self.head, self.tail, o, idx);
            let o2 = seq![idx] + o;
            self.order = Ghost(o2);
            let p = self.pool@;
            let m = self.map@;
            assert forall|y: usize| o2.contains(y) <==> (o.contains(y) || y == idx) by {
                if o2.contains(y) {
                    let j = choose|j: int| 0 <= j < o2.len() && o2[j] == y;
                    if j > 0 {
                        assert(o[j - 1] == y);
                    }
                }
                if o.contains(y) {
                    let j = choose|j: int| 0 <= j < o.len() && o[j] == y;
                    assert(o2[j + 1] == y);
                }
                if y == idx {
                    assert(o2[0] == y);
                }
            }
            assert(m.len() == o2.len());
            assert forall|y: usize| #[trigger] o2.contains(y) implies m.contains_key(p[y as int].key) && m[p[y as int].key] == y by {
                if y != idx {
                    assert(p[y as int].key == p0[y as int].key);
                }
            }
            assert forall|k: i32| #[trigger] m.contains_key(k) implies o2.contains(m[k]) && p[m[k] as int].key == k by {
                if k != key {
                    assert(m0.contains_key(k));
                    assert(o.contains(m[k]));
                    assert(p[m[k] as int].key == p0[m[k] as int].key);
                }
            }
            assert(self@ =~= seq![(key, value)] + old(self)@);
        }
    }

    /// Cuts the slot `idx` out of the list by joining its neighbours.
    fn unlink(&mut self, idx: usize)
        requires
            idx < old(self).pool@.len(),
            old(self).pool@[idx as int].prev < old(self).pool@.len(),
            old(self).pool@[idx as int].next < old(self).pool@.len(),
            old(self).pool@[idx as int].prev != old(self).pool@[idx as int].next,
        ensures
            final(self).capacity == old(self).capacity,
            final(self).map@ == old(self).map@,
            final(self).head == old(self).head,
            final(self).tail == old(self).tail,
            final(self).order@ == old(self).order@,
            unlinked(old(self).pool@, final(self).pool@, idx as int),
    {
        let prev = self.pool[idx].prev;
        let next = self.pool[idx].next;
        let mut p = self.pool[prev];
        p.next = next;
        self.pool.set(prev, p);
        let mut q = self.pool[next];
        q.prev = prev;
        self.pool.set(next, q);
    }

    /// Links the free slot `idx` right after the head sentinel.
    fn push_front(&mut self, idx: usize)
        requires
            idx < old(self).pool@.len(),
            old(self).head < old(self).pool@.len(),
            old(self).pool@[old(self).head as int].next < old(self).pool@.len(),
            idx != old(self).head,
            idx != old(self).pool@[old(self).head as int].next,
            old(self).head != old(self).pool@[old(self).head as int].next,
        ensures
            final(self).capacity == old(self).capacity,
            final(self).map@ == old(self).map@,
            final(self).head == old(self).head,
            final(self).tail == old(self).tail,
            final(self).order@ == old(self).order@,
            pushed_front(old(self).pool@, final(self).pool@, old(self).head as int, idx as int),
    {
        let first = self.pool[self.head].next;
        let mut node = self.pool[idx];
        node.prev = self.head;
        node.next = first;
        self.pool.set(idx, node);
        let mut f = self.pool[first];
        f.prev = idx;
        self.pool.set(first, f);
        let mut h = self.pool[self.head];
        h.next = idx;
        self.pool.set(self.head, h);
    }
}

/// `q` is `p` with slot `x` cut out: its neighbours point at each other, all else as before.
spec fn unlinked(p: Seq<Node>, q: Seq<Node>, x: int) -> bool {
    let prev = p[x].prev;
    let next = p[x].next;
    &&& same_payload(p, q)
    &&& forall|y: int|
        0 <= y < p.len() ==> (#[trigger] q[y]).prev == (if y == next {
            prev
        } else {
            p[y].prev
        }) && q[y].next == (if y == prev {
            next
        } else {
            p[y].next
        })
}

/// `q` is `p` with slot `x` linked right after the sentinel `h`, all else as before.
spec fn pushed_front(p: Seq<Node>, q: Seq<Node>, h: int, x: int) -> bool {
    let first = p[h].next;
    &&& same_payload(p, q)
    &&& forall|y: int|
        0 <= y < p.len() ==> (#[trigger] q[y]).prev == (if y == x {
            h as usize
        } else if y == first {
            x as usize
        } else {
            p[y].prev
        }) && q[y].next == (if y == h {
            x as usize
        } else if y == x {
            first
        } else {
            p[y].next
        })
}

/// The entries after moving position `i` to the front, when no key or value changed.
proof fn lemma_entries_move(p0: Seq<Node>, p2: Seq<Node>, o: Seq<usize>, i: int)
    requires
        same_payload(p0, p2),
        0 <= i < o.len(),
        forall|j: int| 0 <= j < o.len() ==> #[trigger] o[j] < p0.len(),
    ensures
        entries_of(p2, seq![o[i]] + o.remove(i)) == seq![entries_of(p0, o)[i]] + entries_of(p0, o).remove(i),
{
    let e = entries_of(p0, o);
    let o2 = seq![o[i]] + o.remove(i);
    assert(forall|j: int| 0 <= j < o.len() - 1 ==> #[trigger] o.remove(i)[j] == if j < i { o[j] } else { o[j + 1] });
    assert(entries_of(p2, o2) =~= seq![e[i]] + e.remove(i));
}

/// Moving the slot at position `i` to the front keeps the same slots.
proof fn lemma_move_same_slots(o: Seq<usize>, i: int)
    requires
        0 <= i < o.len(),
    ensures
        same_slots(o, seq![o[i]] + o.remove(i)),
{
    let o2 = seq![o[i]] + o.remove(i);
    assert forall|y: usize| o.contains(y) <==> o2.contains(y) by {
        if o.contains(y) {
            let j = choose|j: int| 0 <= j < o.len() && o[j] == y;
            if j < i {
                assert(o2[j + 1] == y);
            } else if j == i {
                assert(o2[0] == y);
            } else {
                assert(o2[j] == y);
            }
        }
        if o2.contains(y) {
            let j = choose|j: int| 0 <= j < o2.len() && o2[j] == y;
            if j == 0 {
                assert(o[i] == y);
            } else if j - 1 < i {
                assert(o[j - 1] == y);
            } else {
                assert(o[j] == y);
            }
        }
    }
}

/// The map invariant survives reordering the list and relinking nodes.
proof fn lemma_map_ok_transfer(m: Map<i32, usize>, p0: Seq<Node>, p1: Seq<Node>, o: Seq<usize>, o2: Seq<usize>)
    requires
        map_ok(m, p0, o),
        same_payload(p0, p1),
        same_slots(o, o2),
        o.len() == o2.len(),
        forall|y: usize| #[trigger] o.contains(y) ==> y < p0.len(),
    ensures
        map_ok(m, p1, o2),
{
    assert forall|y: usize| #[trigger] o2.contains(y) implies m.contains_key(p1[y as int].key) && m[p1[y as int].key] == y by {
        assert(o.contains(y));
        assert(p1[y as int].key == p0[y as int].key);
    }
    assert forall|k: i32| #[trigger] m.contains_key(k) implies o2.contains(m[k]) && p1[m[k] as int].key == k by {
        assert(o.contains(m[k]));
        assert(p1[m[k] as int].key == p0[m[k] as int].key);
    }
}

/// Removing position `i` from a list of distinct slots leaves a list of distinct slots.
proof fn lemma_remove_slots(p: Seq<Node>, q: Seq<Node>, head: usize, tail: usize, o: Seq<usize>, i: int)
    requires
        slots_ok(p, head, tail, o),
        0 <= i < o.len(),
        p.len() == q.len(),
    ensures
        slots_ok(q, head, tail, o.remove(i)),
        forall|j: int| 0 <= j < o.len() - 1 ==> #[trigger] o.remove(i)[j] == if j < i { o[j] } else { o[j + 1] },
{
    let o1 = o.remove(i);
    assert(forall|j: int| 0 <= j < o1.len() ==> #[trigger] o1[j] == if j < i { o[j] } else { o[j + 1] });
    assert forall|a: int, b: int| 0 <= a < o1.len() && 0 <= b < o1.len() && a != b implies o1[a]
        != o1[b] by {
        let a0 = if a < i { a } else { a + 1 };
        let b0 = if b < i { b } else { b + 1 };
        assert(o[a0] != o[b0]);
    }
    assert(o1.no_duplicates());
}

/// Unlinking the slot at list position `i` leaves a list of the other slots.
#[verifier::spinoff_prover]
proof fn lemma_unlink(p: Seq<Node>, q: Seq<Node>, head: usize, tail: usize, o: Seq<usize>, i: int)
    requires
        slots_ok(p, head, tail, o),
        linked(p, head, tail, o),
        0 <= i < o.len(),
        unlinked(p, q, o[i] as int),
    ensures
        slots_ok(q, head, tail, o.remove(i)),
        linked(q, head, tail, o.remove(i)),
{
    lemma_remove_slots(p, q, head, tail, o, i);
    lemma_unlink_prev(p, q, head, tail, o, i);
    lemma_unlink_next(p, q, head, tail, o, i);
    let o1 = o.remove(i);
    let x = o[i] as int;
    assert(q[head as int].next == (if o1.len() == 0 { tail } else { o1[0] })) by {
        if i > 0 {
            assert(o[i - 1] != head);
        }
    }
    assert(q[tail as int].prev == (if o1.len() == 0 { head } else { o1[o1.len() - 1] })) by {
        if i < o.len() - 1 {
            assert(o[i + 1] != tail);
        }
    }
}

#[verifier::spinoff_prover]
proof fn lemma_unlink_prev(p: Seq<Node>, q: Seq<Node>, head: usize, tail: usize, o: Seq<usize>, i: int)
    requires
        slots_ok(p, head, tail, o),
        linked(p, head, tail, o),
        0 <= i < o.len(),
        unlinked(p, q, o[i] as int),
        forall|j: int| 0 <= j < o.len() - 1 ==> #[trigger] o.remove(i)[j] == if j < i { o[j] } else { o[j + 1] },
    ensures
        forall|j: int| #![trigger o.remove(i)[j]] 0 <= j < o.len() - 1 ==> q[o.remove(i)[j] as int].prev == (if j == 0 {
            head
        } else {
            o.remove(i)[j - 1]
        }),
{
    let o1 = o.remove(i);
    let next = p[o[i] as int].next;
    assert forall|j: int| #![trigger o1[j]] 0 <= j < o1.len() implies q[o1[j] as int].prev == (if j == 0 {
            head
        } else {
            o1[j - 1]
        }) by {
        if j < i {
            let y = o[j];
            assert(y != next) by {
                if i + 1 < o.len() {
                    assert(o[j] != o[i + 1]);
                }
            }
            assert(q[y as int].prev == p[y as int].prev);
            assert(p[o[j] as int].prev == (if j == 0 { head } else { o[j - 1] }));
        } else if j == i {
            assert(o[j + 1] == next);
        } else {
            let y = o[j + 1];
            assert(y != next) by {
                assert(o[j + 1] != o[i + 1]);
            }
            assert(q[y as int].prev == p[y as int].prev);
            assert(p[o[j + 1] as int].prev == o[j]);
        }
    }
}

#[verifier::spinoff_prover]
proof fn lemma_unlink_next(p: Seq<Node>, q: Seq<Node>, head: usize, tail: usize, o: Seq<usize>, i: int)
    requires
        slots_ok(p, head, tail, o),
        linked(p, head, tail, o),
        0 <= i < o.len(),
        unlinked(p, q, o[i] as int),
        forall|j: int| 0 <= j < o.len() - 1 ==> #[trigger] o.remove(i)[j] == if j < i { o[j] } else { o[j + 1] },
    ensures
        forall|j: int| #![trigger o.remove(i)[j]] 0 <= j < o.len() - 1 ==> q[o.remove(i)[j] as int].next == (if j == o.len() - 2 {
            tail
        } else {
            o.remove(i)[j + 1]
        }),
{
    let o1 = o.remove(i);
    let prev = p[o[i] as int].prev;
    assert forall|j: int| #![trigger o1[j]] 0 <= j < o1.len() implies q[o1[j] as int].next == (if j == o1.len() - 1 {
            tail
        } else {
            o1[j + 1]
        }) by {
        if j < i - 1 {
            let y = o[j];
            assert(y != prev) by {
                assert(o[j] != o[i - 1]);
            }
            assert(q[y as int].next == p[y as int].next);
            assert(p[o[j] as int].next == o[j + 1]);
        } else if j == i - 1 {
            assert(o[j] == prev);
        } else {
            let y = o[j + 1];
            assert(y != prev) by {
                if i > 0 {
                    assert(o[j + 1] != o[i - 1]);
                }
            }
            assert(q[y as int].next == p[y as int].next);
            assert(p[o[j + 1] as int].next == (if j + 1 == o.len() - 1 { tail } else { o[j + 2] }));
        }
    }
}

/// Linking a free slot `x` after the head sentinel puts it first in the list.
#[verifier::rlimit(40)]
proof fn lemma_push_front(p: Seq<Node>, q: Seq<Node>, head: usize, tail: usize, o: Seq<usize>, x: usize)
    requires
        slots_ok(p, head, tail, o),
        linked(p, head, tail, o),
        x < p.len(),
        x != head,
        x != tail,
        !o.contains(x),
        pushed_front(p, q, head as int, x as int),
    ensures
        slots_ok(q, head, tail, seq![x] + o),
        linked(q, head, tail, seq![x] + o),
{
    let o2 = seq![x] + o;
    let n = o.len();
    let first = p[head as int].next;
    assert forall|j: int| #![trigger o[j]] 0 <= j < n implies o[j] != x by {
        assert(o.contains(o[j]));
    }
    assert(forall|j: int| 0 < j < o2.len() ==> #[trigger] o2[j] == o[j - 1]);
    assert forall|a: int, b: int| 0 <= a < o2.len() && 0 <= b < o2.len() && a != b implies o2[a]
        != o2[b] by {
        if a > 0 && b > 0 {
            assert(o[a - 1] != o[b - 1]);
        }
    }
    assert(o2.no_duplicates());
    assert forall|j: int| #![trigger o2[j]] 0 <= j < o2.len() implies o2[j] < q.len() && o2[j] != head
        && o2[j] != tail by {
        if j > 0 {
            assert(o[j - 1] == o2[j]);
        }
    }
    assert forall|j: int|
        #![trigger o2[j]]
        0 <= j < o2.len() implies q[o2[j] as int].prev == (if j == 0 {
            head
        } else {
            o2[j - 1]
        }) && q[o2[j] as int].next == (if j == o2.len() - 1 {
            tail
        } else {
            o2[j + 1]
        }) by {
        if j > 0 {
            let y = o[j - 1];
            assert(y != x);
            assert(y != head);
            if j == 1 {
                assert(y == first);
            } else {
                assert(y != first);
            }
        }
    }
}

} // verus!
