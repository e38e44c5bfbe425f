//! Stable sorting by integer keys.
use vstd::prelude::*;

verus! {

/// Position `i` comes before position `j` in a stable ascending order of `keys`.
pub open spec fn before(keys: Seq<u128>, i: int, j: int) -> bool {
    keys[i] < keys[j] || (keys[i] == keys[j] && i < j)
}

/// `order` lists the positions `lo..hi`, each once, in stable ascending order of their keys.
pub open spec fn is_order(keys: Seq<u128>, order: Seq<int>, lo: int, hi: int) -> bool {
    &&& order.len() == hi - lo
    &&& forall|i: int| 0 <= i < order.len() ==> lo <= #[trigger] order[i] < hi
    &&& forall|i: int, j: int|
        0 <= i < j < order.len() ==> before(keys, #[trigger] order[i], #[trigger] order[j])
    &&& forall|x: int| lo <= x < hi ==> #[trigger] order.contains(x)
}

/// The positions of `keys` in stable ascending order.
pub open spec fn stable_order(keys: Seq<u128>) -> Seq<int> {
    choose|order: Seq<int>| is_order(keys, order, 0, keys.len() as int)
}

/// The elements of `items` at the positions that `order` lists.
pub open spec fn arrange<A>(items: Seq<A>, order: Seq<int>) -> Seq<A> {
    Seq::new(order.len(), |i: int| items[order[i]])
}

/// `items` in stable ascending order of the parallel sequence `keys`.
pub open spec fn stable_sorted<A>(items: Seq<A>, keys: Seq<u128>) -> Seq<A> {
    arrange(items, stable_order(keys))
}

/// There is only one stable order of a sequence of keys.
pub proof fn lemma_order_unique(keys: Seq<u128>, p: Seq<int>, q: Seq<int>, lo: int, hi: int)
    requires
        is_order(keys, p, lo, hi),
        is_order(keys, q, lo, hi),
    ensures
        p == q,
{
    assert forall|n: int| 0 <= n <= p.len() implies #[trigger] p.take(n) == q.take(n) by {
        lemma_order_prefix_unique(keys, p, q, lo, hi, n);
    }
    assert(p.take(p.len() as int) == p);
    assert(q.take(p.len() as int) == q);
}

proof fn lemma_order_prefix_unique(
    keys: Seq<u128>,
    p: Seq<int>,
    q: Seq<int>,
    lo: int,
    hi: int,
    n: int,
)
    requires
        is_order(keys, p, lo, hi),
        is_order(keys, q, lo, hi),
        0 <= n <= p.len(),
    ensures
        p.take(n) == q.take(n),
    decreases n,
{
    if n > 0 {
        lemma_order_prefix_unique(keys, p, q, lo, hi, n - 1);
        assert forall|i: int| 0 <= i < n - 1 implies p[i] == q[i] by {
            assert(p.take(n - 1)[i] == q.take(n - 1)[i]);
        }
        let x = p[n - 1];
        let y = q[n - 1];
        assert(q.contains(x));
        assert(p.contains(y));
        let qi = choose|i: int| 0 <= i < q.len() && q[i] == x;
        let pj = choose|j: int| 0 <= j < p.len() && p[j] == y;
        if x != y {
            if qi < n - 1 {
                assert(before(keys, p[qi], p[n - 1]));
            }
            if pj < n - 1 {
                assert(before(keys, q[pj], q[n - 1]));
            }
            assert(before(keys, q[n - 1], q[qi]));
            assert(before(keys, p[n - 1], p[pj]));
            assert(false);
        }
        assert(p.take(n) =~= q.take(n));
    }
}

/// Every sequence of keys has a stable order.
pub proof fn lemma_order_exists(keys: Seq<u128>, n: int)
    requires
        0 <= n <= keys.len(),
    ensures
        exists|order: Seq<int>| is_order(keys, order, 0, n),
    decreases n,
{
    if n == 0 {
        assert(is_order(keys, Seq::empty(), 0, 0));
    } else {
        lemma_order_exists(keys, n - 1);
        let m = n - 1;
        let order = choose|order: Seq<int>| is_order(keys, order, 0, m);
        let at = lemma_insert_position(keys, order, n - 1);
        lemma_insert_is_order(keys, order, at, n - 1);
    }
}

proof fn lemma_insert_is_order(keys: Seq<u128>, order: Seq<int>, at: int, x: int)
    requires
        is_order(keys, order, 0, x),
        0 <= x < keys.len(),
        0 <= at <= order.len(),
        forall|i: int| 0 <= i < at ==> before(keys, #[trigger] order[i], x),
        forall|i: int| at <= i < order.len() ==> before(keys, x, #[trigger] order[i]),
    ensures
        is_order(keys, order.insert(at, x), 0, x + 1),
{
    let wider = order.insert(at, x);
    assert forall|i: int, j: int| 0 <= i < j < wider.len() implies before(
        keys,
        #[trigger] wider[i],
        #[trigger] wider[j],
    ) by {
        let oi = if i < at { i } else { i - 1 };
        let oj = if j < at { j } else { j - 1 };
        if i != at && j != at {
            assert(before(keys, order[oi], order[oj]));
        }
    }
    assert forall|v: int| 0 <= v < x + 1 implies #[trigger] wider.contains(v) by {
        if v == x {
            assert(wider[at] == v);
        } else {
            assert(order.contains(v));
            let i = choose|i: int| 0 <= i < order.len() && order[i] == v;
            if i < at {
                assert(wider[i] == v);
            } else {
                assert(wider[i + 1] == v);
            }
        }
    }
}

proof fn lemma_insert_position(keys: Seq<u128>, order: Seq<int>, x: int) -> (at: int)
    requires
        is_order(keys, order, 0, x),
        0 <= x < keys.len(),
    ensures
        0 <= at <= order.len(),
        forall|i: int| 0 <= i < at ==> before(keys, #[trigger] order[i], x),
        forall|i: int| at <= i < order.len() ==> before(keys, x, #[trigger] order[i]),
{
    lemma_insert_position_below(keys, order, x, order.len() as int)
}

proof fn lemma_insert_position_below(keys: Seq<u128>, order: Seq<int>, x: int, n: int) -> (at: int)
    requires
        is_order(keys, order, 0, x),
        0 <= x < keys.len(),
        0 <= n <= order.len(),
        forall|i: int| n <= i < order.len() ==> before(keys, x, #[trigger] order[i]),
    ensures
        0 <= at <= order.len(),
        forall|i: int| 0 <= i < at ==> before(keys, #[trigger] order[i], x),
        forall|i: int| at <= i < order.len() ==> before(keys, x, #[trigger] order[i]),
    decreases n,
{
    if n == 0 || before(keys, order[n - 1], x) {
        n
    } else {
        lemma_insert_position_below(keys, order, x, n - 1)
    }
}

/// `stable_order` is the stable order, and any stable order is `stable_order`.
pub proof fn lemma_stable_order(keys: Seq<u128>)
    ensures
        is_order(keys, stable_order(keys), 0, keys.len() as int),
        forall|order: Seq<int>| #[trigger]
            is_order(keys, order, 0, keys.len() as int) ==> order == stable_order(keys),
{
    lemma_order_exists(keys, keys.len() as int);
    assert forall|order: Seq<int>| #[trigger] is_order(keys, order, 0, keys.len() as int) implies order
        == stable_order(keys) by {
        lemma_order_unique(keys, order, stable_order(keys), 0, keys.len() as int);
    }
}

/// `items` in stable ascending order of `key`.
pub open spec fn sorted_with<A>(items: Seq<A>, key: spec_fn(A) -> u128) -> Seq<A> {
    stable_sorted(items, items.map_values(key))
}

/// The elements ascend by `key`.
pub open spec fn ascends<A>(items: Seq<A>, key: spec_fn(A) -> u128) -> bool {
    forall|i: int, j: int|
        0 <= i < j < items.len() ==> key(#[trigger] items[i]) <= key(#[trigger] items[j])
}

/// The predicate of having a given key.
pub open spec fn keyed<A>(key: spec_fn(A) -> u128, k: u128) -> spec_fn(A) -> bool {
    |x: A| key(x) == k
}

pub proof fn lemma_filter_push<A>(s: Seq<A>, x: A, pred: spec_fn(A) -> bool)
    ensures
        s.push(x).filter(pred) == (if pred(x) {
            s.filter(pred).push(x)
        } else {
            s.filter(pred)
        }),
{
    reveal_with_fuel(Seq::filter, 1);
    assert(s.push(x).drop_last() =~= s);
}

/// Filtering a concatenation.
pub proof fn lemma_filter_add<A>(s: Seq<A>, t: Seq<A>, pred: spec_fn(A) -> bool)
    ensures
        (s + t).filter(pred) == s.filter(pred) + t.filter(pred),
{
    Seq::filter_distributes_over_add(s, t, pred);
}

/// Nothing passes a filter that no element meets.
pub proof fn lemma_filter_none<A>(s: Seq<A>, pred: spec_fn(A) -> bool)
    requires
        forall|i: int| 0 <= i < s.len() ==> !pred(#[trigger] s[i]),
    ensures
        s.filter(pred) == Seq::<A>::empty(),
    decreases s.len(),
{
    reveal_with_fuel(Seq::filter, 1);
    if s.len() > 0 {
        let shorter = s.drop_last();
        assert forall|i: int| 0 <= i < shorter.len() implies !pred(#[trigger] shorter[i]) by {
            assert(shorter[i] == s[i]);
        }
        lemma_filter_none(shorter, pred);
    }
}

/// Everything passes a filter that every element meets.
pub proof fn lemma_filter_all<A>(s: Seq<A>, pred: spec_fn(A) -> bool)
    requires
        forall|i: int| 0 <= i < s.len() ==> pred(#[trigger] s[i]),
    ensures
        s.filter(pred) == s,
    decreases s.len(),
{
    reveal_with_fuel(Seq::filter, 1);
    if s.len() > 0 {
        let shorter = s.drop_last();
        assert forall|i: int| 0 <= i < shorter.len() implies pred(#[trigger] shorter[i]) by {
            assert(shorter[i] == s[i]);
        }
        lemma_filter_all(shorter, pred);
        assert(shorter.push(s.last()) =~= s);
    }
}

/// What passes a filter that exactly the elements of a range meet.
pub proof fn lemma_filter_range<A>(s: Seq<A>, start: int, end: int, pred: spec_fn(A) -> bool)
    requires
        0 <= start <= end <= s.len(),
        forall|k: int| 0 <= k < s.len() ==> pred(#[trigger] s[k]) == (start <= k < end),
    ensures
        s.filter(pred) == s.subrange(start, end),
{
    let head = s.take(start);
    let middle = s.subrange(start, end);
    let tail = s.skip(end);
    assert(s =~= (head + middle) + tail);
    lemma_filter_add(head + middle, tail, pred);
    lemma_filter_add(head, middle, pred);
    assert forall|k: int| 0 <= k < head.len() implies !pred(#[trigger] head[k]) by {
        assert(head[k] == s[k]);
    }
    assert forall|k: int| 0 <= k < middle.len() implies pred(#[trigger] middle[k]) by {
        assert(middle[k] == s[start + k]);
    }
    assert forall|k: int| 0 <= k < tail.len() implies !pred(#[trigger] tail[k]) by {
        assert(tail[k] == s[end + k]);
    }
    lemma_filter_none(head, pred);
    lemma_filter_all(middle, pred);
    lemma_filter_none(tail, pred);
    assert(s.filter(pred) =~= middle);
}

/// Sorting one more element inserts it behind all that do not exceed it.
proof fn lemma_sorted_push<A>(items: Seq<A>, x: A, key: spec_fn(A) -> u128) -> (at: int)
    ensures
        0 <= at <= items.len(),
        sorted_with(items, key).len() == items.len(),
        sorted_with(items.push(x), key) == sorted_with(items, key).insert(at, x),
        forall|i: int| 0 <= i < at ==> key(#[trigger] sorted_with(items, key)[i]) <= key(x),
        forall|i: int|
            at <= i < items.len() ==> key(x) < key(#[trigger] sorted_with(items, key)[i]),
{
    let n = items.len() as int;
    let keys = items.map_values(key);
    let wider_keys = items.push(x).map_values(key);
    assert(wider_keys =~= keys.push(key(x)));
    lemma_stable_order(keys);
    lemma_stable_order(wider_keys);
    let order = stable_order(keys);
    assert forall|i: int, j: int| 0 <= i < n && 0 <= j < n implies before(keys, i, j) == before(
        wider_keys,
        i,
        j,
    ) by {}
    assert(is_order(wider_keys, order, 0, n)) by {
        assert forall|i: int, j: int| 0 <= i < j < order.len() implies before(
            wider_keys,
            #[trigger] order[i],
            #[trigger] order[j],
        ) by {
            assert(before(keys, order[i], order[j]));
        }
    }
    let at = lemma_insert_position(wider_keys, order, n);
    let wider = order.insert(at, n);
    lemma_insert_is_order(wider_keys, order, at, n);
    assert(wider == stable_order(wider_keys));
    assert(sorted_with(items.push(x), key) =~= sorted_with(items, key).insert(at, x));
    assert forall|i: int| 0 <= i < at implies key(#[trigger] sorted_with(items, key)[i]) <= key(
        x,
    ) by {
        assert(before(wider_keys, order[i], n));
    }
    assert forall|i: int| at <= i < n implies key(x) < key(#[trigger] sorted_with(items, key)[i]) by {
        assert(before(wider_keys, n, order[i]));
    }
    at
}

/// Sorting puts the keys in ascending order and keeps the elements of each key in their order.
pub proof fn lemma_sorted_with<A>(items: Seq<A>, key: spec_fn(A) -> u128)
    ensures
        sorted_with(items, key).len() == items.len(),
        ascends(sorted_with(items, key), key),
        forall|k: u128| #[trigger]
            sorted_with(items, key).filter(keyed(key, k)) == items.filter(keyed(key, k)),
    decreases items.len(),
{
    if items.len() == 0 {
        lemma_stable_order(items.map_values(key));
        assert(sorted_with(items, key) =~= items);
    } else {
        let shorter = items.drop_last();
        let x = items.last();
        assert(shorter.push(x) =~= items);
        lemma_sorted_with(shorter, key);
        let at = lemma_sorted_push(shorter, x, key);
        let sorted = sorted_with(shorter, key);
        let wider = sorted_with(items, key);
        assert(wider == sorted.insert(at, x));
        assert forall|i: int, j: int| 0 <= i < j < wider.len() implies key(#[trigger] wider[i])
            <= key(#[trigger] wider[j]) by {
            let oi = if i < at { i } else { i - 1 };
            let oj = if j < at { j } else { j - 1 };
            if i != at {
                assert(wider[i] == sorted[oi]);
            }
            if j != at {
                assert(wider[j] == sorted[oj]);
            }
            if i != at && j != at {
                assert(key(sorted[oi]) <= key(sorted[oj]));
            }
        }
        assert forall|k: u128| #[trigger] wider.filter(keyed(key, k)) == items.filter(
            keyed(key, k),
        ) by {
            let pred = keyed(key, k);
            let head = sorted.take(at);
            let tail = sorted.skip(at);
            assert(sorted =~= head + tail);
            assert(wider =~= head.push(x) + tail);
            lemma_filter_add(head, tail, pred);
            lemma_filter_add(head.push(x), tail, pred);
            lemma_filter_push(head, x, pred);
            lemma_filter_push(shorter, x, pred);
            assert(sorted.filter(pred) == shorter.filter(pred));
            if pred(x) {
                assert forall|i: int| 0 <= i < tail.len() implies !pred(#[trigger] tail[i]) by {
                    assert(tail[i] == sorted[at + i]);
                }
                lemma_filter_none(tail, pred);
                assert(wider.filter(pred) =~= items.filter(pred));
            } else {
                assert(wider.filter(pred) =~= items.filter(pred));
            }
        }
    }
}

/// Two ascending sequences that agree on the elements of each key are the same.
pub proof fn lemma_ascending_unique<A>(r: Seq<A>, t: Seq<A>, key: spec_fn(A) -> u128)
    requires
        ascends(r, key),
        ascends(t, key),
        forall|k: u128| #[trigger] r.filter(keyed(key, k)) == t.filter(keyed(key, k)),
    ensures
        r == t,
    decreases r.len(),
{
    if r.len() == 0 {
        if t.len() > 0 {
            lemma_last_key_passes(t, key);
            lemma_filter_none(r, keyed(key, key(t.last())));
            assert(r.filter(keyed(key, key(t.last()))) == t.filter(keyed(key, key(t.last()))));
        }
        assert(r =~= t);
    } else {
        let k = key(r.last());
        lemma_last_key_passes(r, key);
        assert(r.filter(keyed(key, k)) == t.filter(keyed(key, k)));
        if t.len() == 0 {
            lemma_filter_none(t, keyed(key, k));
        }
        let j = key(t.last());
        lemma_last_key_passes(t, key);
        assert(r.filter(keyed(key, j)) == t.filter(keyed(key, j)));
        if k != j {
            // The element with the larger last key is missing on the other side.
            if k < j {
                assert forall|i: int| 0 <= i < r.len() implies !keyed(key, j)(#[trigger] r[i]) by {
                    if i < r.len() - 1 {
                        assert(key(r[i]) <= key(r[r.len() - 1]));
                    }
                }
                lemma_filter_none(r, keyed(key, j));
            } else {
                assert forall|i: int| 0 <= i < t.len() implies !keyed(key, k)(#[trigger] t[i]) by {
                    if i < t.len() - 1 {
                        assert(key(t[i]) <= key(t[t.len() - 1]));
                    }
                }
                lemma_filter_none(t, keyed(key, k));
            }
            assert(false);
        }
        let r0 = r.drop_last();
        let t0 = t.drop_last();
        assert(r0.push(r.last()) =~= r);
        assert(t0.push(t.last()) =~= t);
        lemma_filter_push(r0, r.last(), keyed(key, k));
        lemma_filter_push(t0, t.last(), keyed(key, k));
        assert(r.filter(keyed(key, k)).last() == r.last());
        assert(t.filter(keyed(key, k)).last() == t.last());
        assert forall|m: u128| #[trigger] r0.filter(keyed(key, m)) == t0.filter(keyed(key, m)) by {
            assert(r.filter(keyed(key, m)) == t.filter(keyed(key, m)));
            lemma_filter_push(r0, r.last(), keyed(key, m));
            lemma_filter_push(t0, t.last(), keyed(key, m));
            if m == k {
                assert(r0.filter(keyed(key, m)) =~= r.filter(keyed(key, m)).drop_last());
                assert(t0.filter(keyed(key, m)) =~= t.filter(keyed(key, m)).drop_last());
            }
        }
        lemma_ascending_unique(r0, t0, key);
    }
}

proof fn lemma_last_key_passes<A>(s: Seq<A>, key: spec_fn(A) -> u128)
    ensures
        s.len() > 0 ==> s.filter(keyed(key, key(s.last()))).len() > 0,
{
    if s.len() > 0 {
        let s0 = s.drop_last();
        assert(s0.push(s.last()) =~= s);
        lemma_filter_push(s0, s.last(), keyed(key, key(s.last())));
    }
}

/// Positions as mathematical integers.
pub open spec fn positions(order: Seq<usize>) -> Seq<int> {
    order.map_values(|i: usize| i as int)
}

fn merge(
    keys: &Vec<u128>,
    left: &Vec<usize>,
    right: &Vec<usize>,
    Ghost(lo): Ghost<int>,
    Ghost(mid): Ghost<int>,
    Ghost(hi): Ghost<int>,
) -> (order: Vec<usize>)
    requires
        0 <= lo <= mid <= hi <= keys@.len(),
        is_order(keys@, positions(left@), lo, mid),
        is_order(keys@, positions(right@), mid, hi),
    ensures
        is_order(keys@, positions(order@), lo, hi),
{
    let mut order: Vec<usize> = Vec::new();
    let mut i: usize = 0;
    let mut j: usize = 0;
    let ghost l = positions(left@);
    let ghost r = positions(right@);
    while i < left.len() || j < right.len()
        invariant
            0 <= lo <= mid <= hi <= keys@.len(),
            is_order(keys@, l, lo, mid),
            is_order(keys@, r, mid, hi),
            l == positions(left@),
            r == positions(right@),
            i <= left@.len(),
            j <= right@.len(),
            order@.len() == i + j,
            forall|k: int| 0 <= k < order@.len() ==> lo <= #[trigger] order@[k] < hi,
            forall|a: int, b: int|
                0 <= a < b < order@.len() ==> before(
                    keys@,
                    #[trigger] order@[a] as int,
                    #[trigger] order@[b] as int,
                ),
            forall|k: int, x: int|
                0 <= k < order@.len() && i <= x < l.len() ==> before(
                    keys@,
                    #[trigger] order@[k] as int,
                    #[trigger] l[x],
                ),
            forall|k: int, x: int|
                0 <= k < order@.len() && j <= x < r.len() ==> before(
                    keys@,
                    #[trigger] order@[k] as int,
                    #[trigger] r[x],
                ),
            forall|x: int| 0 <= x < i ==> positions(order@).contains(#[trigger] l[x]),
            forall|x: int| 0 <= x < j ==> positions(order@).contains(#[trigger] r[x]),
        decreases left@.len() + right@.len() - i - j,
    {
        let take_left: bool = if i >= left.len() {
            false
        } else if j >= right.len() {
            true
        } else {
            assert(l[i as int] == left@[i as int]);
            assert(r[j as int] == right@[j as int]);
            keys[left[i]] <= keys[right[j]]
        };
        let ghost prior = order@;
        if take_left {
            assert(l[i as int] == left@[i as int]);
            proof {
                assert forall|x: int| j <= x < r.len() implies before(
                    keys@,
                    l[i as int],
                    #[trigger] r[x],
                ) by {
                    if x > j {
                        assert(before(keys@, r[j as int], r[x]));
                    }
                }
            }
            order.push(left[i]);
            i = i + 1;
        } else {
            assert(r[j as int] == right@[j as int]);
            proof {
                assert forall|x: int| i <= x < l.len() implies before(
                    keys@,
                    r[j as int],
                    #[trigger] l[x],
                ) by {
                    if x > i {
                        assert(before(keys@, l[i as int], l[x]));
                    }
                }
            }
            order.push(right[j]);
            j = j + 1;
        }
        proof {
            assert(forall|k: int| 0 <= k < prior.len() ==> order@[k] == prior[k]);
            assert forall|v: int| positions(prior).contains(v) implies #[trigger] positions(
                order@,
            ).contains(v) by {
                let k = choose|k: int| 0 <= k < prior.len() && positions(prior)[k] == v;
                assert(positions(order@)[k] == v);
            }
            assert(positions(order@)[prior.len() as int] == order@[prior.len() as int]);
            assert(positions(order@).contains(order@[prior.len() as int] as int));
        }
    }
    proof {
        let p = positions(order@);
        assert forall|x: int| lo <= x < hi implies #[trigger] p.contains(x) by {
            if x < mid {
                assert(l.contains(x));
                let k = choose|k: int| 0 <= k < l.len() && l[k] == x;
                assert(p.contains(l[k]));
            } else {
                assert(r.contains(x));
                let k = choose|k: int| 0 <= k < r.len() && r[k] == x;
                assert(p.contains(r[k]));
            }
        }
    }
    order
}

fn sort_range(keys: &Vec<u128>, lo: usize, hi: usize) -> (order: Vec<usize>)
    requires
        lo <= hi <= keys@.len(),
    ensures
        is_order(keys@, positions(order@), lo as int, hi as int),
    decreases hi - lo,
{
    if hi - lo == 0 {
        let order: Vec<usize> = Vec::new();
        return order;
    }
    if hi - lo == 1 {
        let mut order: Vec<usize> = Vec::new();
        order.push(lo);
        assert(positions(order@)[0] == lo);
        return order;
    }
    let mid: usize = lo + (hi - lo) / 2;
    let left = sort_range(keys, lo, mid);
    let right = sort_range(keys, mid, hi);
    merge(keys, &left, &right, Ghost(lo as int), Ghost(mid as int), Ghost(hi as int))
}

/// Positions of `keys` in ascending order, equal keys in the order in which they stand.
pub fn sorted_order(keys: &Vec<u128>) -> (order: Vec<usize>)
    ensures
        positions(order@) == stable_order(keys@),
        is_order(keys@, positions(order@), 0, keys@.len() as int),
{
    let order = sort_range(keys, 0, keys.len());
    proof {
        lemma_stable_order(keys@);
    }
    order
}

/// `items` in ascending order of their keys, equal keys in the order in which they stand.
pub fn sort_by_keys<T: Copy>(items: &Vec<T>, keys: &Vec<u128>) -> (sorted: Vec<T>)
    requires
        items@.len() == keys@.len(),
    ensures
        sorted@ == stable_sorted(items@, keys@),
{
    let order = sorted_order(keys);
    let mut sorted: Vec<T> = Vec::new();
    let mut i: usize = 0;
    while i < order.len()
        invariant
            items@.len() == keys@.len(),
            is_order(keys@, positions(order@), 0, keys@.len() as int),
            i <= order@.len(),
            sorted@ == arrange(items@, positions(order@)).take(i as int),
        decreases order@.len() - i,
    {
        assert(positions(order@)[i as int] == order@[i as int]);
        sorted.push(items[order[i]]);
        i = i + 1;
        assert(sorted@ =~= arrange(items@, positions(order@)).take(i as int));
    }
    assert(sorted@ =~= arrange(items@, positions(order@)));
    sorted
}

} // verus!
