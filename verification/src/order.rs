//! Stable ordering of indexed values.
//!
//! Everything in this crate that needs a sort asks for the *order* of a list of
//! keys: the permutation of indices that lists the keys from first to last, ties
//! staying in index order. That permutation is unique, which is what makes every
//! ordering in the crate reproducible.

use vstd::prelude::*;

verus! {

/// A key with a strict weak order.
pub trait SortKey: Copy {
    /// This key comes strictly before `other`.
    spec fn before(self, other: Self) -> bool;

    /// No key comes before itself, "before" chains, and so does "not before".
    proof fn strict_weak(a: Self, b: Self, c: Self)
        ensures
            !a.before(a),
            a.before(b) && b.before(c) ==> a.before(c),
            !a.before(b) && !b.before(c) ==> !a.before(c),
    ;

    /// Tests whether this key comes strictly before `other`.
    fn is_before(&self, other: &Self) -> (r: bool)
        ensures
            r == self.before(*other),
    ;
}

impl SortKey for i128 {
    open spec fn before(self, other: Self) -> bool {
        self < other
    }

    proof fn strict_weak(a: Self, b: Self, c: Self) {
    }

    fn is_before(&self, other: &Self) -> (r: bool) {
        *self < *other
    }
}

/// Index `i` precedes index `j`: its key comes first, or the keys tie and it is the
/// smaller index.
pub open spec fn precedes<K: SortKey>(keys: Seq<K>, i: int, j: int) -> bool {
    keys[i].before(keys[j]) || (!keys[j].before(keys[i]) && i < j)
}

/// `order` lists distinct indices of `keys` in ascending order.
pub open spec fn is_ascending<K: SortKey>(keys: Seq<K>, order: Seq<usize>) -> bool {
    forall|a: int, b: int|
        0 <= a < b < order.len() ==> precedes(keys, #[trigger] order[a] as int, #[trigger] order[b] as int)
}

/// `order` lists every index from `lo` up to `hi` and nothing else.
pub open spec fn covers(order: Seq<usize>, lo: int, hi: int) -> bool {
    &&& forall|a: int| 0 <= a < order.len() ==> lo <= #[trigger] order[a] < hi
    &&& forall|v: usize| lo <= v < hi ==> #[trigger] order.contains(v)
}

/// `order` is the stable ascending order of `keys`.
pub open spec fn is_order_of<K: SortKey>(keys: Seq<K>, order: Seq<usize>) -> bool {
    &&& order.len() == keys.len()
    &&& covers(order, 0, keys.len() as int)
    &&& is_ascending(keys, order)
}

/// Precedence chains.
pub proof fn lemma_precedes_transitive<K: SortKey>(keys: Seq<K>, i: int, j: int, k: int)
    requires
        precedes(keys, i, j),
        precedes(keys, j, k),
    ensures
        precedes(keys, i, k),
{
    K::strict_weak(keys[i], keys[j], keys[k]);
    K::strict_weak(keys[k], keys[j], keys[i]);
    K::strict_weak(keys[j], keys[i], keys[k]);
    K::strict_weak(keys[j], keys[k], keys[i]);
    K::strict_weak(keys[i], keys[k], keys[j]);
    K::strict_weak(keys[k], keys[i], keys[j]);
}

/// Of two indices at most one precedes the other, and none precedes itself.
pub proof fn lemma_precedes_asymmetric<K: SortKey>(keys: Seq<K>, i: int, j: int)
    requires
        precedes(keys, i, j),
    ensures
        !precedes(keys, j, i),
        i != j,
{
    K::strict_weak(keys[i], keys[j], keys[i]);
    K::strict_weak(keys[j], keys[i], keys[j]);
}

fn merge<K: SortKey>(
    keys: &[K],
    left: &Vec<usize>,
    right: &Vec<usize>,
    lo: usize,
    mid: usize,
    hi: usize,
) -> (out: Vec<usize>)
    requires
        lo <= mid <= hi <= keys.len(),
        left.len() == mid - lo,
        right.len() == hi - mid,
        covers(left@, lo as int, mid as int),
        covers(right@, mid as int, hi as int),
        is_ascending(keys@, left@),
        is_ascending(keys@, right@),
    ensures
        out.len() == hi - lo,
        covers(out@, lo as int, hi as int),
        is_ascending(keys@, out@),
{
    let mut out: Vec<usize> = Vec::with_capacity(hi - lo);
    let mut i: usize = 0;
    let mut j: usize = 0;
    while i < left.len() || j < right.len()
        invariant
            lo <= mid <= hi <= keys.len(),
            left.len() == mid - lo,
            right.len() == hi - mid,
            i <= left.len(),
            j <= right.len(),
            out.len() == i + j,
            covers(left@, lo as int, mid as int),
            covers(right@, mid as int, hi as int),
            is_ascending(keys@, left@),
            is_ascending(keys@, right@),
            is_ascending(keys@, out@),
            forall|a: int| 0 <= a < out.len() ==> lo <= #[trigger] out[a] < hi,
            forall|a: int| 0 <= a < i ==> out@.contains(#[trigger] left[a]),
            forall|b: int| 0 <= b < j ==> out@.contains(#[trigger] right[b]),
            forall|a: int, b: int|
                0 <= a < out.len() && i <= b < left.len() ==> precedes(
                    keys@,
                    #[trigger] out[a] as int,
                    #[trigger] left[b] as int,
                ),
            forall|a: int, b: int|
                0 <= a < out.len() && j <= b < right.len() ==> precedes(
                    keys@,
                    #[trigger] out[a] as int,
                    #[trigger] right[b] as int,
                ),
        decreases left.len() - i + right.len() - j,
    {
        let ghost before = out@;
        let take_left: bool = if i >= left.len() {
            false
        } else if j >= right.len() {
            true
        } else {
            !keys[right[j]].is_before(&keys[left[i]])
        };
        if take_left {
            let v: usize = left[i];
            out.push(v);
            proof {
                assert forall|b: int| j <= b < right.len() implies precedes(
                    keys@,
                    v as int,
                    #[trigger] right[b] as int,
                ) by {
                    assert(precedes(keys@, v as int, right[j as int] as int));
                    if b != j {
                        lemma_precedes_transitive(
                            keys@,
                            v as int,
                            right[j as int] as int,
                            right[b] as int,
                        );
                    }
                }
                assert(out@[before.len() as int] == v);
                assert forall|a: int| 0 <= a < i + 1 implies out@.contains(#[trigger] left[a]) by {
                    if a < i {
                        let p = choose|p: int| 0 <= p < before.len() && before[p] == left[a];
                        assert(out@[p] == left[a]);
                    }
                }
                assert forall|b: int| 0 <= b < j implies out@.contains(#[trigger] right[b]) by {
                    let p = choose|p: int| 0 <= p < before.len() && before[p] == right[b];
                    assert(out@[p] == right[b]);
                }
            }
            i = i + 1;
        } else {
            let v: usize = right[j];
            out.push(v);
            proof {
                assert forall|b: int| i <= b < left.len() implies precedes(
                    keys@,
                    v as int,
                    #[trigger] left[b] as int,
                ) by {
                    assert(precedes(keys@, v as int, left[i as int] as int));
                    if b != i {
                        lemma_precedes_transitive(
                            keys@,
                            v as int,
                            left[i as int] as int,
                            left[b] as int,
                        );
                    }
                }
                assert(out@[before.len() as int] == v);
                assert forall|a: int| 0 <= a < i implies out@.contains(#[trigger] left[a]) by {
                    let p = choose|p: int| 0 <= p < before.len() && before[p] == left[a];
                    assert(out@[p] == left[a]);
                }
                assert forall|b: int| 0 <= b < j + 1 implies out@.contains(#[trigger] right[b]) by {
                    if b < j {
                        let p = choose|p: int| 0 <= p < before.len() && before[p] == right[b];
                        assert(out@[p] == right[b]);
                    }
                }
            }
            j = j + 1;
        }
    }
    proof {
        assert forall|v: usize| lo <= v < hi implies #[trigger] out@.contains(v) by {
            if v < mid {
                assert(left@.contains(v));
            } else {
                assert(right@.contains(v));
            }
        }
    }
    out
}

fn order_range<K: SortKey>(keys: &[K], lo: usize, hi: usize) -> (out: Vec<usize>)
    requires
        lo <= hi <= keys.len(),
    ensures
        out.len() == hi - lo,
        covers(out@, lo as int, hi as int),
        is_ascending(keys@, out@),
    decreases hi - lo,
{
    if hi - lo == 0 {
        Vec::new()
    } else if hi - lo == 1 {
        let mut out: Vec<usize> = Vec::new();
        out.push(lo);
        assert(out@[0] == lo);
        out
    } else {
        let mid: usize = lo + (hi - lo) / 2;
        let left = order_range(keys, lo, mid);
        let right = order_range(keys, mid, hi);
        merge(keys, &left, &right, lo, mid, hi)
    }
}

/// The stable ascending order of `keys`.
pub fn stable_order<K: SortKey>(keys: &[K]) -> (order: Vec<usize>)
    ensures
        is_order_of(keys@, order@),
{
    order_range(keys, 0, keys.len())
}

/// An order lists no index twice.
pub proof fn lemma_order_distinct<K: SortKey>(keys: Seq<K>, order: Seq<usize>)
    requires
        is_ascending(keys, order),
    ensures
        order.no_duplicates(),
{
    assert forall|a: int, b: int| 0 <= a < order.len() && 0 <= b < order.len() && a != b implies order[a]
        != order[b] by {
        if a < b {
            lemma_precedes_asymmetric(keys, order[a] as int, order[b] as int);
        } else {
            lemma_precedes_asymmetric(keys, order[b] as int, order[a] as int);
        }
    }
}

/// Law: a list of keys has exactly one stable order.
pub proof fn law_order_is_unique<K: SortKey>(keys: Seq<K>, first: Seq<usize>, second: Seq<usize>)
    requires
        is_order_of(keys, first),
        is_order_of(keys, second),
    ensures
        first == second,
{
    lemma_order_distinct(keys, first);
    lemma_order_distinct(keys, second);
    assert forall|a: int| 0 <= a < first.len() implies first[a] == second[a] by {
        lemma_orders_agree_at(keys, first, second, a);
    }
    assert(first =~= second);
}

proof fn lemma_orders_agree_at<K: SortKey>(
    keys: Seq<K>,
    first: Seq<usize>,
    second: Seq<usize>,
    a: int,
)
    requires
        is_order_of(keys, first),
        is_order_of(keys, second),
        0 <= a < first.len(),
    ensures
        first[a] == second[a],
    decreases a,
{
    if first[a] != second[a] {
        assert forall|k: int| 0 <= k < a implies first[k] == second[k] by {
            lemma_orders_agree_at(keys, first, second, k);
        }
        assert(second.contains(first[a]));
        assert(first.contains(second[a]));
        let p = choose|p: int| 0 <= p < second.len() && second[p] == first[a];
        let q = choose|q: int| 0 <= q < first.len() && first[q] == second[a];
        if p < a {
            assert(precedes(keys, first[p] as int, first[a] as int));
            lemma_precedes_asymmetric(keys, first[p] as int, first[a] as int);
        }
        if q < a {
            assert(precedes(keys, second[q] as int, second[a] as int));
            lemma_precedes_asymmetric(keys, second[q] as int, second[a] as int);
        }
        assert(precedes(keys, second[a] as int, second[p] as int));
        assert(precedes(keys, first[a] as int, first[q] as int));
        lemma_precedes_asymmetric(keys, first[a] as int, second[a] as int);
    }
}

/// Collects `items` in the order given by `order`.
pub fn gather<T: Copy>(items: &[T], order: &[usize]) -> (out: Vec<T>)
    requires
        forall|a: int| 0 <= a < order.len() ==> #[trigger] order[a] < items.len(),
    ensures
        out.len() == order.len(),
        forall|a: int| 0 <= a < out.len() ==> #[trigger] out[a] == items[order[a] as int],
{
    let mut out: Vec<T> = Vec::with_capacity(order.len());
    let mut k: usize = 0;
    while k < order.len()
        invariant
            k <= order.len(),
            out.len() == k,
            forall|a: int| 0 <= a < order.len() ==> #[trigger] order[a] < items.len(),
            forall|a: int| 0 <= a < k ==> #[trigger] out[a] == items[order[a] as int],
        decreases order.len() - k,
    {
        out.push(items[order[k]]);
        k = k + 1;
    }
    out
}

/// For each index the place at which `order` lists it.
pub fn invert(order: &[usize]) -> (slots: Vec<u32>)
    requires
        order@.no_duplicates(),
        forall|a: int| 0 <= a < order.len() ==> #[trigger] order[a] < order.len(),
    ensures
        slots.len() == order.len(),
        forall|p: int| 0 <= p < order.len() ==> slots[#[trigger] order[p] as int] == p as u32,
{
    let mut slots: Vec<u32> = vec![0u32; order.len()];
    let mut k: usize = 0;
    while k < order.len()
        invariant
            k <= order.len(),
            slots.len() == order.len(),
            order@.no_duplicates(),
            forall|a: int| 0 <= a < order.len() ==> #[trigger] order[a] < order.len(),
            forall|p: int| 0 <= p < k ==> slots[#[trigger] order[p] as int] == p as u32,
        decreases order.len() - k,
    {
        let ghost before = slots@;
        let at: usize = order[k];
        slots.set(at, #[verifier::truncate] (k as u32));
        assert forall|p: int| 0 <= p < k implies slots[#[trigger] order[p] as int] == p as u32 by {
            assert(order@[p] != order@[k as int]);
            assert(before[order[p] as int] == p as u32);
        }
        k = k + 1;
    }
    slots
}

/// Putting items in another order keeps them all.
pub proof fn lemma_reordered_multiset<T>(items: Seq<T>, order: Seq<usize>, out: Seq<T>)
    requires
        order.no_duplicates(),
        order.len() == items.len() <= usize::MAX,
        out.len() == items.len(),
        covers(order, 0, items.len() as int),
        forall|a: int| 0 <= a < out.len() ==> #[trigger] out[a] == items[order[a] as int],
    ensures
        out.to_multiset() == items.to_multiset(),
    decreases items.len(),
{
    broadcast use vstd::seq_lib::group_to_multiset_ensures;

    if items.len() == 0 {
        assert(out =~= items);
    } else {
        let n = items.len() as int;
        let last = (n - 1) as usize;
        assert(order.contains(last));
        let p = choose|p: int| 0 <= p < order.len() && order[p] == last;
        let rest_order = order.remove(p);
        let rest_items = items.drop_last();
        let rest_out = out.remove(p);
        assert forall|a: int| 0 <= a < rest_order.len() implies 0 <= #[trigger] rest_order[a] < n - 1 by {
            let b = if a < p { a } else { a + 1 };
            assert(rest_order[a] == order[b]);
            assert(order[b] != order[p]);
        }
        assert forall|v: usize| 0 <= v < n - 1 implies #[trigger] rest_order.contains(v) by {
            assert(order.contains(v));
            let b = choose|b: int| 0 <= b < order.len() && order[b] == v;
            if b < p {
                assert(rest_order[b] == v);
            } else {
                assert(rest_order[b - 1] == v);
            }
        }
        assert(rest_order.no_duplicates()) by {
            assert forall|a: int, b: int|
                0 <= a < rest_order.len() && 0 <= b < rest_order.len() && a != b implies rest_order[a]
                != rest_order[b] by {
                let x = if a < p { a } else { a + 1 };
                let y = if b < p { b } else { b + 1 };
                assert(rest_order[a] == order[x] && rest_order[b] == order[y]);
            }
        }
        assert forall|a: int| 0 <= a < rest_out.len() implies #[trigger] rest_out[a]
            == rest_items[rest_order[a] as int] by {
            let b = if a < p { a } else { a + 1 };
            assert(rest_out[a] == out[b] && rest_order[a] == order[b]);
        }
        lemma_reordered_multiset(rest_items, rest_order, rest_out);
        assert(items =~= rest_items.push(items[n - 1]));
        assert(out[p] == items[n - 1]);
        assert(out.to_multiset().count(out[p]) > 0) by {
            assert(out.contains(out[p]));
        }
        assert(out.to_multiset() =~= rest_out.to_multiset().insert(out[p]));
        assert(items.to_multiset() =~= rest_items.to_multiset().insert(items[n - 1]));
    }
}

/// Law: two ascending lists of distinct numbers with the same members are the same list.
pub proof fn law_ascending_list_is_unique(a: Seq<int>, b: Seq<int>)
    requires
        forall|i: int, j: int| 0 <= i < j < a.len() ==> #[trigger] a[i] < #[trigger] a[j],
        forall|i: int, j: int| 0 <= i < j < b.len() ==> #[trigger] b[i] < #[trigger] b[j],
        forall|v: int| #[trigger] a.contains(v) <==> b.contains(v),
    ensures
        a == b,
    decreases a.len(),
{
    if a.len() == 0 {
        if b.len() > 0 {
            assert(b.contains(b[0]));
            assert(a.contains(b[0]));
        }
        assert(a =~= b);
    } else {
        assert(a.contains(a.last()));
        let q = choose|q: int| 0 <= q < b.len() && b[q] == a.last();
        assert(b.contains(b.last()));
        assert(a.contains(b.last()));
        let p = choose|p: int| 0 <= p < a.len() && a[p] == b.last();
        assert(a.last() == b.last());
        let c = a.drop_last();
        let d = b.drop_last();
        assert forall|v: int| #[trigger] c.contains(v) <==> d.contains(v) by {
            if c.contains(v) {
                let i = choose|i: int| 0 <= i < c.len() && c[i] == v;
                assert(a[i] == v && a[i] < a[a.len() - 1]);
                assert(a.contains(v));
                assert(b.contains(v));
                let j = choose|j: int| 0 <= j < b.len() && b[j] == v;
                assert(d[j] == v);
            }
            if d.contains(v) {
                let i = choose|i: int| 0 <= i < d.len() && d[i] == v;
                assert(b[i] == v && b[i] < b[b.len() - 1]);
                assert(b.contains(v));
                assert(a.contains(v));
                let j = choose|j: int| 0 <= j < a.len() && a[j] == v;
                assert(c[j] == v);
            }
        }
        law_ascending_list_is_unique(c, d);
        assert(a =~= c.push(a.last()));
        assert(b =~= d.push(b.last()));
    }
}

} // verus!
