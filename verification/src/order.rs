//! Sorting that keeps the order of equals.

use vstd::prelude::*;

verus! {

/// Whether, of two places, the first comes before the second: its key is smaller,
/// or they are the same and it was first before.
pub open spec fn precedes(keys: Seq<u128>, a: int, b: int) -> bool {
    keys[a] < keys[b] || (keys[a] == keys[b] && a < b)
}

/// Whether `order` lists the places of all the keys, smaller keys first and equal
/// ones as they stood.
pub open spec fn is_stable_order(order: Seq<usize>, keys: Seq<u128>) -> bool {
    &&& order.len() == keys.len()
    &&& lists_range(order, keys, 0, keys.len() as int)
}

/// Whether `order` lists places from `lo` up to `hi`, in their order.
pub open spec fn lists_range(order: Seq<usize>, keys: Seq<u128>, lo: int, hi: int) -> bool {
    &&& forall|i: int| 0 <= i < order.len() ==> lo <= #[trigger] order[i] < hi
    &&& forall|i: int, j: int|
        0 <= i < j < order.len() ==> precedes(keys, #[trigger] order[i] as int, #[trigger] order[j] as int)
}

/// The items of `s` in the given order.
pub open spec fn arranged<T>(s: Seq<T>, order: Seq<usize>) -> Seq<T> {
    Seq::new(order.len(), |i: int| s[order[i] as int])
}

/// Joins two lists of places, all of the first before any of the second.
fn merge(keys: &Vec<u128>, a: &Vec<usize>, b: &Vec<usize>, lo: usize, mid: usize, hi: usize) -> (res:
    Vec<usize>)
    requires
        lo <= mid <= hi <= keys@.len(),
        lists_range(a@, keys@, lo as int, mid as int),
        lists_range(b@, keys@, mid as int, hi as int),
        a@.len() + b@.len() <= usize::MAX,
    ensures
        res@.len() == a@.len() + b@.len(),
        lists_range(res@, keys@, lo as int, hi as int),
{
    let mut res: Vec<usize> = Vec::new();
    let mut i: usize = 0;
    let mut j: usize = 0;
    while i < a.len() || j < b.len()
        invariant
            lo <= mid <= hi <= keys@.len(),
            lists_range(a@, keys@, lo as int, mid as int),
            lists_range(b@, keys@, mid as int, hi as int),
            a@.len() + b@.len() <= usize::MAX,
            i <= a@.len(),
            j <= b@.len(),
            res@.len() == i + j,
            lists_range(res@, keys@, lo as int, hi as int),
            forall|x: int, y: int|
                0 <= x < res@.len() && i <= y < a@.len() ==> precedes(
                    keys@,
                    #[trigger] res@[x] as int,
                    #[trigger] a@[y] as int,
                ),
            forall|x: int, y: int|
                0 <= x < res@.len() && j <= y < b@.len() ==> precedes(
                    keys@,
                    #[trigger] res@[x] as int,
                    #[trigger] b@[y] as int,
                ),
        decreases a.len() - i + b.len() - j,
    {
        let take_a = if i == a.len() {
            false
        } else if j == b.len() {
            true
        } else {
            keys[a[i]] <= keys[b[j]]
        };
        if take_a {
            res.push(a[i]);
            i = i + 1;
        } else {
            res.push(b[j]);
            j = j + 1;
        }
    }
    res
}

/// The order of the keys from `lo` up to `hi`.
fn order_range(keys: &Vec<u128>, lo: usize, hi: usize) -> (res: Vec<usize>)
    requires
        lo <= hi <= keys@.len(),
    ensures
        res@.len() == hi - lo,
        lists_range(res@, keys@, lo as int, hi as int),
    decreases hi - lo,
{
    if hi - lo <= 1 {
        let mut res: Vec<usize> = Vec::new();
        if lo < hi {
            res.push(lo);
        }
        return res;
    }
    let mid: usize = lo + (hi - lo) / 2;
    let a = order_range(keys, lo, mid);
    let b = order_range(keys, mid, hi);
    merge(keys, &a, &b, lo, mid, hi)
}

/// The order that sorts the keys and keeps equal ones as they stand.
pub fn stable_order(keys: &Vec<u128>) -> (order: Vec<usize>)
    ensures
        is_stable_order(order@, keys@),
{
    order_range(keys, 0, keys.len())
}

/// A stable order lists every place.
pub proof fn law_order_lists_all(order: Seq<usize>, keys: Seq<u128>, x: int)
    requires
        is_stable_order(order, keys),
        0 <= x < keys.len(),
    ensures
        exists|p: int| 0 <= p < order.len() && #[trigger] order[p] == x,
{
    if forall|p: int| 0 <= p < order.len() ==> #[trigger] order[p] != x {
        let moved = Seq::new(
            order.len(),
            |i: int|
                if order[i] < x {
                    order[i] as int
                } else {
                    order[i] - 1
                },
        );
        assert forall|i: int, j: int| 0 <= i < j < order.len() implies #[trigger] order[i]
            != #[trigger] order[j] by {
            assert(precedes(keys, order[i] as int, order[j] as int));
        }
        assert forall|i: int, j: int| 0 <= i < j < moved.len() implies #[trigger] moved[i]
            != #[trigger] moved[j] by {
            assert(order[i] != order[j] && order[i] != x && order[j] != x);
        }
        assert forall|i: int| 0 <= i < moved.len() implies 0 <= #[trigger] moved[i] < keys.len()
            - 1 by {
            assert(order[i] != x && order[i] < keys.len());
        }
        law_distinct_fit(moved, (keys.len() - 1) as nat);
    }
}

/// There are no more different numbers below a bound than the bound says.
pub proof fn law_distinct_fit(s: Seq<int>, m: nat)
    requires
        forall|i: int| 0 <= i < s.len() ==> 0 <= (#[trigger] s[i]) < m,
        forall|i: int, j: int| 0 <= i < j < s.len() ==> #[trigger] s[i] != #[trigger] s[j],
    ensures
        s.len() <= m,
    decreases m,
{
    if m > 0 {
        if exists|p: int| 0 <= p < s.len() && #[trigger] s[p] == m - 1 {
            let p = choose|p: int| 0 <= p < s.len() && #[trigger] s[p] == m - 1;
            law_distinct_fit(s.remove(p), (m - 1) as nat);
        } else {
            law_distinct_fit(s, (m - 1) as nat);
        }
    } else if s.len() > 0 {
        assert(0 <= s[0] < m);
    }
}

/// There is only one stable order.
pub proof fn law_stable_order_unique(a: Seq<usize>, b: Seq<usize>, keys: Seq<u128>)
    requires
        is_stable_order(a, keys),
        is_stable_order(b, keys),
    ensures
        a == b,
{
    assert forall|n: int| 0 <= n <= a.len() implies #[trigger] a.take(n) == b.take(n) by {
        lemma_same_front(a, b, keys, n);
    }
    assert(a.take(a.len() as int) =~= a && b.take(b.len() as int) =~= b);
}

proof fn lemma_same_front(a: Seq<usize>, b: Seq<usize>, keys: Seq<u128>, n: int)
    requires
        is_stable_order(a, keys),
        is_stable_order(b, keys),
        0 <= n <= a.len(),
    ensures
        a.take(n) == b.take(n),
    decreases n,
{
    if n > 0 {
        let i = n - 1;
        lemma_same_front(a, b, keys, i);
        if a[i] != b[i] {
            lemma_comes_later(a, b, keys, i);
            lemma_comes_later(b, a, keys, i);
        }
        assert(a.take(n) =~= a.take(i).push(a[i]));
        assert(b.take(n) =~= b.take(i).push(b[i]));
    }
}

proof fn lemma_comes_later(a: Seq<usize>, b: Seq<usize>, keys: Seq<u128>, i: int)
    requires
        is_stable_order(a, keys),
        is_stable_order(b, keys),
        0 <= i < a.len(),
        a.take(i) == b.take(i),
        a[i] != b[i],
    ensures
        precedes(keys, b[i] as int, a[i] as int),
{
    law_order_lists_all(b, keys, a[i] as int);
    let p = choose|p: int| 0 <= p < b.len() && #[trigger] b[p] == a[i];
    if p < i {
        assert(a.take(i)[p] == a[p] && b.take(i)[p] == b[p]);
        assert(precedes(keys, a[p] as int, a[i] as int));
    }
    assert(precedes(keys, b[i] as int, b[p] as int));
}

/// What a stable order is: it lists as many places as there are keys, each of them a place
/// of a key; a smaller key comes before a greater one, and of two equal ones the first
/// comes first.
pub proof fn law_stable_order(order: Seq<usize>, keys: Seq<u128>, i: int, j: int)
    requires
        is_stable_order(order, keys),
        0 <= i < j < order.len(),
    ensures
        order.len() == keys.len(),
        order[i] < keys.len() && order[j] < keys.len(),
        keys[order[i] as int] <= keys[order[j] as int],
        keys[order[i] as int] == keys[order[j] as int] ==> order[i] < order[j],
{
    assert(precedes(keys, order[i] as int, order[j] as int));
}

/// Items are arranged by taking them from their places in the given order.
pub proof fn law_arranged<T>(s: Seq<T>, order: Seq<usize>, i: int)
    requires
        0 <= i < order.len(),
    ensures
        arranged(s, order).len() == order.len(),
        arranged(s, order)[i] == s[order[i] as int],
{
}

} // verus!
