//! Stable ordering of items by integer keys.

use vstd::prelude::*;

verus! {

/// A sort key: compared by the first number, then by the second.
pub type Key = (u64, u64);

/// Whether item `i` with key `a` goes before item `j` with key `b`: by key, and by position where
/// the keys are equal.
pub open spec fn goes_before(a: Key, i: int, b: Key, j: int) -> bool {
    a.0 < b.0 || (a.0 == b.0 && (a.1 < b.1 || (a.1 == b.1 && i < j)))
}

/// Whether `order` lists the positions `lo..hi` of `keys`, each once, in ascending stable order.
pub open spec fn is_range_order(order: Seq<usize>, keys: Seq<Key>, lo: int, hi: int) -> bool {
    &&& order.len() == hi - lo
    &&& forall|i: int| 0 <= i < order.len() ==> lo <= #[trigger] order[i] < hi
    &&& forall|i: int, j: int|
        0 <= i < j < order.len() ==> goes_before(
            keys[#[trigger] order[i] as int],
            order[i] as int,
            keys[#[trigger] order[j] as int],
            order[j] as int,
        )
    &&& forall|k: int| lo <= k < hi ==> order.contains(#[trigger] (k as usize))
}

/// Whether `order` lists every position of `keys` once, in ascending stable order.
pub open spec fn is_order(order: Seq<usize>, keys: Seq<Key>) -> bool {
    is_range_order(order, keys, 0, keys.len() as int)
}

/// The ascending stable order of `keys`.
pub open spec fn order_of(keys: Seq<Key>) -> Seq<usize> {
    choose|order: Seq<usize>| is_order(order, keys)
}

/// The items of `s` in the ascending stable order of their `keys`.
pub open spec fn arranged<T>(s: Seq<T>, keys: Seq<Key>) -> Seq<T> {
    Seq::new(s.len(), |i: int| s[order_of(keys)[i] as int])
}

/// Keys have one ascending stable order only.
pub proof fn order_is_unique(a: Seq<usize>, b: Seq<usize>, keys: Seq<Key>)
    requires
        is_order(a, keys),
        is_order(b, keys),
    ensures
        a == b,
{
    assert forall|n: int| 0 <= n <= a.len() implies a.take(n) == b.take(n) by {
        lemma_orders_agree(a, b, keys, n);
    }
    assert(a.take(a.len() as int) =~= a);
    assert(b.take(b.len() as int) =~= b);
}

proof fn lemma_orders_agree(a: Seq<usize>, b: Seq<usize>, keys: Seq<Key>, n: int)
    requires
        is_order(a, keys),
        is_order(b, keys),
        0 <= n <= a.len(),
    ensures
        a.take(n) == b.take(n),
    decreases n,
{
    if n > 0 {
        lemma_orders_agree(a, b, keys, n - 1);
        let m = n - 1;
        assert forall|i: int| 0 <= i < m implies a[i] == b[i] by {
            assert(a.take(m)[i] == b.take(m)[i]);
        }
        if a[m] != b[m] {
            assert(b.contains((a[m] as int) as usize));
            assert(a.contains((b[m] as int) as usize));
            let i = choose|i: int| 0 <= i < b.len() && b[i] == a[m];
            let j = choose|j: int| 0 <= j < a.len() && a[j] == b[m];
            assert(i >= m) by {
                if i < m {
                    assert(a[i] == b[i]);
                    assert(goes_before(keys[a[i] as int], a[i] as int, keys[a[m] as int], a[m] as int));
                }
            }
            assert(j >= m) by {
                if j < m {
                    assert(a[j] == b[j]);
                    assert(goes_before(keys[b[j] as int], b[j] as int, keys[b[m] as int], b[m] as int));
                }
            }
            assert(goes_before(keys[b[m] as int], b[m] as int, keys[b[i] as int], b[i] as int));
            assert(goes_before(keys[a[m] as int], a[m] as int, keys[a[j] as int], a[j] as int));
        }
        assert(a.take(n) =~= b.take(n));
    }
}

/// The ascending stable order of `keys` is the one that satisfies [`is_order`].
pub proof fn lemma_order_of(order: Seq<usize>, keys: Seq<Key>)
    requires
        is_order(order, keys),
    ensures
        order == order_of(keys),
{
    order_is_unique(order, order_of(keys), keys);
}

/// Where position `n` goes in the order of the positions before it.
proof fn insertion_point(order: Seq<usize>, keys: Seq<Key>, n: int, m: int) -> (p: int)
    requires
        0 <= n < keys.len(),
        is_range_order(order, keys, 0, n),
        0 <= m <= order.len(),
        forall|i: int|
            m <= i < order.len() ==> goes_before(
                keys[n],
                n,
                keys[#[trigger] order[i] as int],
                order[i] as int,
            ),
    ensures
        0 <= p <= order.len(),
        forall|i: int|
            0 <= i < p ==> goes_before(keys[#[trigger] order[i] as int], order[i] as int, keys[n], n),
        forall|i: int|
            p <= i < order.len() ==> goes_before(
                keys[n],
                n,
                keys[#[trigger] order[i] as int],
                order[i] as int,
            ),
    decreases m,
{
    if m == 0 {
        0
    } else {
        let last = order[m - 1] as int;
        if goes_before(keys[last], last, keys[n], n) {
            assert forall|i: int| 0 <= i < m implies goes_before(
                keys[#[trigger] order[i] as int],
                order[i] as int,
                keys[n],
                n,
            ) by {
                if i < m - 1 {
                    assert(goes_before(
                        keys[order[i] as int],
                        order[i] as int,
                        keys[order[m - 1] as int],
                        order[m - 1] as int,
                    ));
                }
            }
            m
        } else {
            insertion_point(order, keys, n, m - 1)
        }
    }
}

proof fn lemma_prefix_order(keys: Seq<Key>, n: int) -> (order: Seq<usize>)
    requires
        0 <= n <= keys.len() <= usize::MAX,
    ensures
        is_range_order(order, keys, 0, n),
    decreases n,
{
    if n == 0 {
        Seq::empty()
    } else {
        let front = lemma_prefix_order(keys, n - 1);
        let p = insertion_point(front, keys, n - 1, front.len() as int);
        let order = front.insert(p, (n - 1) as usize);
        assert forall|k: int| 0 <= k < n implies order.contains(#[trigger] (k as usize)) by {
            if k == n - 1 {
                assert(order[p] == k as usize);
            } else {
                assert(front.contains(k as usize));
                let q = choose|q: int| 0 <= q < front.len() && front[q] == k as usize;
                if q < p {
                    assert(order[q] == front[q]);
                } else {
                    assert(order[q + 1] == front[q]);
                }
            }
        }
        assert forall|i: int, j: int| 0 <= i < j < order.len() implies goes_before(
            keys[#[trigger] order[i] as int],
            order[i] as int,
            keys[#[trigger] order[j] as int],
            order[j] as int,
        ) by {
            let a = if i < p {
                i
            } else {
                i - 1
            };
            let b = if j < p {
                j
            } else {
                j - 1
            };
            if i != p {
                assert(order[i] == front[a]);
            }
            if j != p {
                assert(order[j] == front[b]);
            }
        }
        assert forall|i: int| 0 <= i < order.len() implies 0 <= #[trigger] order[i] < n by {
            if i < p {
                assert(order[i] == front[i]);
            } else if i > p {
                assert(order[i] == front[i - 1]);
            }
        }
        order
    }
}

/// Keys always have an ascending stable order.
pub proof fn order_exists(keys: Seq<Key>)
    requires
        keys.len() <= usize::MAX,
    ensures
        is_order(order_of(keys), keys),
{
    let order = lemma_prefix_order(keys, keys.len() as int);
    assert(is_order(order, keys));
}

proof fn lemma_permuted<T>(s: Seq<T>, order: Seq<usize>)
    requires
        order.len() == s.len(),
        order.no_duplicates(),
        forall|i: int| 0 <= i < order.len() ==> (#[trigger] order[i]) < s.len(),
        forall|k: int| 0 <= k < s.len() ==> order.contains(#[trigger] (k as usize)),
        s.len() <= usize::MAX,
    ensures
        Seq::new(s.len(), |i: int| s[order[i] as int]).to_multiset() == s.to_multiset(),
    decreases s.len(),
{
    broadcast use vstd::seq_lib::group_to_multiset_ensures;

    let out = Seq::new(s.len(), |i: int| s[order[i] as int]);
    if s.len() == 0 {
        assert(out =~= s);
    } else {
        let n = s.len() as int - 1;
        let front = s.drop_last();
        assert(order.contains(n as usize));
        let p = choose|p: int| 0 <= p < order.len() && order[p] == n as usize;
        let rest = order.remove(p);
        assert forall|k: int| 0 <= k < front.len() implies rest.contains(#[trigger] (k as usize)) by {
            assert(order.contains(k as usize));
            let q = choose|q: int| 0 <= q < order.len() && order[q] == k as usize;
            if q < p {
                assert(rest[q] == order[q]);
            } else {
                assert(rest[q - 1] == order[q]);
            }
        }
        lemma_permuted(front, rest);
        assert(out.remove(p) =~= Seq::new(front.len(), |i: int| front[rest[i] as int]));
        assert(out[p] == s[n]);
        assert(out.remove(p).insert(p, s[n]) =~= out);
        assert(out.to_multiset() =~= out.remove(p).to_multiset().insert(s[n]));
        assert(front.push(s[n]) =~= s);
        assert(s.to_multiset() =~= front.to_multiset().insert(s[n]));
    }
}

/// Arranging items loses none and adds none.
pub proof fn arranging_keeps_items<T>(s: Seq<T>, keys: Seq<Key>)
    requires
        s.len() == keys.len() <= usize::MAX,
    ensures
        arranged(s, keys).to_multiset() == s.to_multiset(),
{
    order_exists(keys);
    let order = order_of(keys);
    assert forall|i: int, j: int|
        0 <= i < order.len() && 0 <= j < order.len() && i != j implies order[i] != order[j] by {
        if i < j {
            assert(goes_before(
                keys[order[i] as int],
                order[i] as int,
                keys[order[j] as int],
                order[j] as int,
            ));
        } else {
            assert(goes_before(
                keys[order[j] as int],
                order[j] as int,
                keys[order[i] as int],
                order[i] as int,
            ));
        }
    }
    lemma_permuted(s, order);
    assert(arranged(s, keys) =~= Seq::new(s.len(), |i: int| s[order[i] as int]));
}

fn key_le(a: Key, b: Key) -> (r: bool)
    ensures
        r == (a.0 < b.0 || (a.0 == b.0 && a.1 <= b.1)),
{
    a.0 < b.0 || (a.0 == b.0 && a.1 <= b.1)
}

/// Merges the orders of two adjacent ranges.
fn merge_orders(
    keys: &Vec<Key>,
    left: &Vec<usize>,
    right: &Vec<usize>,
    lo: usize,
    mid: usize,
    hi: usize,
) -> (r: Vec<usize>)
    requires
        lo <= mid <= hi <= keys@.len(),
        is_range_order(left@, keys@, lo as int, mid as int),
        is_range_order(right@, keys@, mid as int, hi as int),
    ensures
        is_range_order(r@, keys@, lo as int, hi as int),
{
    let mut r: Vec<usize> = Vec::new();
    let mut i: usize = 0;
    let mut j: usize = 0;
    while i < left.len() || j < right.len()
        invariant
            lo <= mid <= hi <= keys@.len(),
            is_range_order(left@, keys@, lo as int, mid as int),
            is_range_order(right@, keys@, mid as int, hi as int),
            i <= left@.len(),
            j <= right@.len(),
            r@.len() == i + j,
            forall|k: int| 0 <= k < r@.len() ==> lo <= #[trigger] r@[k] < hi,
            forall|a: int, b: int|
                0 <= a < b < r@.len() ==> goes_before(
                    keys@[#[trigger] r@[a] as int],
                    r@[a] as int,
                    keys@[#[trigger] r@[b] as int],
                    r@[b] as int,
                ),
            forall|a: int, b: int|
                0 <= a < r@.len() && i <= b < left@.len() ==> goes_before(
                    keys@[#[trigger] r@[a] as int],
                    r@[a] as int,
                    keys@[#[trigger] left@[b] as int],
                    left@[b] as int,
                ),
            forall|a: int, b: int|
                0 <= a < r@.len() && j <= b < right@.len() ==> goes_before(
                    keys@[#[trigger] r@[a] as int],
                    r@[a] as int,
                    keys@[#[trigger] right@[b] as int],
                    right@[b] as int,
                ),
            forall|k: int| 0 <= k < i ==> r@.contains(#[trigger] left@[k]),
            forall|k: int| 0 <= k < j ==> r@.contains(#[trigger] right@[k]),
        decreases left@.len() + right@.len() - i - j,
    {
        let take_left = if i == left.len() {
            false
        } else if j == right.len() {
            true
        } else {
            key_le(keys[left[i]], keys[right[j]])
        };
        let ghost before = r@;
        if take_left {
            r.push(left[i]);
            i = i + 1;
        } else {
            r.push(right[j]);
            j = j + 1;
        }
        assert forall|x: usize| before.contains(x) implies r@.contains(x) by {
            let k = choose|k: int| 0 <= k < before.len() && before[k] == x;
            assert(r@[k] == x);
        }
        assert(r@.contains(r@[before.len() as int]));
    }
    assert forall|k: int| lo <= k < hi implies r@.contains(#[trigger] (k as usize)) by {
        if k < mid {
            assert(left@.contains(k as usize));
            let p = choose|p: int| 0 <= p < left@.len() && left@[p] == k as usize;
            assert(r@.contains(left@[p]));
        } else {
            assert(right@.contains(k as usize));
            let p = choose|p: int| 0 <= p < right@.len() && right@[p] == k as usize;
            assert(r@.contains(right@[p]));
        }
    }
    r
}

fn sort_range(keys: &Vec<Key>, lo: usize, hi: usize) -> (r: Vec<usize>)
    requires
        lo <= hi <= keys@.len(),
    ensures
        is_range_order(r@, keys@, lo as int, hi as int),
    decreases hi - lo,
{
    if hi - lo == 0 {
        return Vec::new();
    }
    if hi - lo == 1 {
        let mut r: Vec<usize> = Vec::new();
        r.push(lo);
        assert(r@[0] == lo);
        return r;
    }
    let mid: usize = lo + (hi - lo) / 2;
    let left = sort_range(keys, lo, mid);
    let right = sort_range(keys, mid, hi);
    merge_orders(keys, &left, &right, lo, mid, hi)
}

/// The positions of `keys` in ascending order of key; where keys are equal, the earlier position
/// comes first.
pub fn sort_order(keys: &Vec<Key>) -> (r: Vec<usize>)
    ensures
        is_order(r@, keys@),
        r@ == order_of(keys@),
{
    let r = sort_range(keys, 0, keys.len());
    proof {
        lemma_order_of(r@, keys@);
    }
    r
}

/// Arranged items have ascending keys: the first numbers ascend, among equal first numbers the
/// second numbers do, and items with equal keys keep their order. Every item is listed.
pub proof fn arranging_sorts_by_key<T>(s: Seq<T>, keys: Seq<Key>, i: int, j: int)
    requires
        s.len() == keys.len() <= usize::MAX,
        0 <= i < j < s.len(),
    ensures
        ({
            let a = order_of(keys)[i] as int;
            let b = order_of(keys)[j] as int;
            &&& 0 <= a < s.len()
            &&& 0 <= b < s.len()
            &&& a != b
            &&& arranged(s, keys)[i] == s[a]
            &&& arranged(s, keys)[j] == s[b]
            &&& keys[a].0 <= keys[b].0
            &&& keys[a].0 == keys[b].0 ==> keys[a].1 <= keys[b].1
            &&& keys[a] == keys[b] ==> a < b
        }),
        arranged(s, keys).len() == s.len(),
        forall|k: int| 0 <= k < s.len() ==> arranged(s, keys).contains(#[trigger] s[k]),
{
    order_exists(keys);
    let order = order_of(keys);
    assert(goes_before(
        keys[order[i] as int],
        order[i] as int,
        keys[order[j] as int],
        order[j] as int,
    ));
    assert forall|k: int| 0 <= k < s.len() implies arranged(s, keys).contains(#[trigger] s[k]) by {
        assert(order.contains(k as usize));
        let p = choose|p: int| 0 <= p < order.len() && order[p] == k as usize;
        assert(arranged(s, keys)[p] == s[k]);
    }
}

} // verus!
