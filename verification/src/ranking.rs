//! Descending order of values that need not all be numbers.
//!
//! Items are compared by value, the higher first, and by place where the values tie. A value
//! that is not a number ties with every other, so the place alone decides where it goes.
//! Such comparisons may contradict each other: with a value that is not a number between
//! them, an item of low value and early place comes before and after one of high value and
//! late place. Where they do not, there is one order that agrees with all of them, and it is
//! the one computed here. To that end a value that is not a number stands as high as the
//! lowest number placed before it.

use vstd::prelude::*;

use crate::order::stable_order;
use crate::scalar::Scalar;

verus! {

/// Where a value stands that is not a number and has no number placed before it: above all.
pub const ABOVE_ALL: i128 = 0x7f80_0001;

/// Item `a` is placed before item `b`; items of one place follow their indices.
pub open spec fn is_earlier(places: Seq<int>, a: int, b: int) -> bool {
    places[a] < places[b] || (places[a] == places[b] && a < b)
}

/// Item `a` compares before item `b`.
pub open spec fn compares_before(values: Seq<Scalar>, places: Seq<int>, a: int, b: int) -> bool {
    if values[a].nan() || values[b].nan() || values[a].rank() == values[b].rank() {
        is_earlier(places, a, b)
    } else {
        values[b].less(values[a])
    }
}

/// The comparisons do not contradict each other.
pub open spec fn is_consistent(values: Seq<Scalar>, places: Seq<int>) -> bool {
    forall|a: int, b: int, c: int|
        0 <= a < values.len() && 0 <= b < values.len() && 0 <= c < values.len()
            && #[trigger] compares_before(values, places, a, b)
            && #[trigger] compares_before(values, places, b, c) ==> compares_before(
            values,
            places,
            a,
            c,
        )
}

/// Item `d` is a number placed before item `c`.
pub open spec fn is_number_before(values: Seq<Scalar>, places: Seq<int>, d: int, c: int) -> bool {
    0 <= d < values.len() && is_earlier(places, d, c) && !values[d].nan()
}

/// The lowest of the numbers placed before item `c`, among the first `upto` items.
pub open spec fn lowest_before(values: Seq<Scalar>, places: Seq<int>, c: int, upto: nat) -> int
    decreases upto,
{
    if upto == 0 {
        ABOVE_ALL as int
    } else {
        let d = upto - 1;
        let rest = lowest_before(values, places, c, d as nat);
        if is_number_before(values, places, d, c) && values[d].rank() < rest {
            values[d].rank()
        } else {
            rest
        }
    }
}

/// How high item `c` stands.
pub open spec fn standing(values: Seq<Scalar>, places: Seq<int>, c: int) -> int {
    if values[c].nan() {
        lowest_before(values, places, c, values.len())
    } else {
        values[c].rank()
    }
}

/// Item `a` stands before item `b`: higher, or as high and placed before it.
pub open spec fn stands_before(values: Seq<Scalar>, places: Seq<int>, a: int, b: int) -> bool {
    let (x, y) = (standing(values, places, a), standing(values, places, b));
    x > y || (x == y && is_earlier(places, a, b))
}

/// `f` is what `lowest_before` says of item `c`.
pub open spec fn is_lowest_before(values: Seq<Scalar>, places: Seq<int>, c: int, f: int) -> bool {
    &&& f <= ABOVE_ALL
    &&& forall|d: int| #[trigger]
        is_number_before(values, places, d, c) ==> f <= values[d].rank()
    &&& f == ABOVE_ALL || exists|d: int| #[trigger]
        is_number_before(values, places, d, c) && values[d].rank() == f
}

pub proof fn lemma_lowest_before(values: Seq<Scalar>, places: Seq<int>, c: int)
    ensures
        is_lowest_before(values, places, c, lowest_before(values, places, c, values.len())),
{
    lemma_lowest_upto(values, places, c, values.len());
}

proof fn lemma_lowest_upto(values: Seq<Scalar>, places: Seq<int>, c: int, upto: nat)
    requires
        upto <= values.len(),
    ensures
        ({
            let f = lowest_before(values, places, c, upto);
            &&& f <= ABOVE_ALL
            &&& forall|d: int|
                d < upto && #[trigger] is_number_before(values, places, d, c) ==> f
                    <= values[d].rank()
            &&& f == ABOVE_ALL || exists|d: int| #[trigger]
                is_number_before(values, places, d, c) && values[d].rank() == f
        }),
    decreases upto,
{
    if upto > 0 {
        lemma_lowest_upto(values, places, c, (upto - 1) as nat);
        let f = lowest_before(values, places, c, upto);
        let rest = lowest_before(values, places, c, (upto - 1) as nat);
        if f != rest {
            assert(is_number_before(values, places, upto - 1, c));
        } else if rest != ABOVE_ALL {
            let d = choose|d: int| #[trigger]
                is_number_before(values, places, d, c) && values[d].rank() == rest;
            assert(is_number_before(values, places, d, c));
        }
    }
}

/// Only one number is the lowest.
pub proof fn lemma_lowest_unique(values: Seq<Scalar>, places: Seq<int>, c: int, f: int)
    requires
        is_lowest_before(values, places, c, f),
    ensures
        lowest_before(values, places, c, values.len()) == f,
{
    lemma_lowest_before(values, places, c);
    let g = lowest_before(values, places, c, values.len());
    if f < g {
        let d = choose|d: int| #[trigger]
            is_number_before(values, places, d, c) && values[d].rank() == f;
        assert(g <= values[d].rank());
    } else if g < f {
        let d = choose|d: int| #[trigger]
            is_number_before(values, places, d, c) && values[d].rank() == g;
        assert(f <= values[d].rank());
    }
}

/// Law: where the comparisons do not contradict each other, items stand as they compare.
pub proof fn law_standing_agrees_with_comparison(
    values: Seq<Scalar>,
    places: Seq<int>,
    a: int,
    b: int,
)
    requires
        values.len() == places.len(),
        is_consistent(values, places),
        0 <= a < values.len(),
        0 <= b < values.len(),
    ensures
        stands_before(values, places, a, b) == compares_before(values, places, a, b),
{
    lemma_lowest_before(values, places, a);
    lemma_lowest_before(values, places, b);
    if a != b {
        lemma_agrees_one_way(values, places, a, b);
        lemma_agrees_one_way(values, places, b, a);
    }
}

/// An item that compares before another stands before it.
proof fn lemma_agrees_one_way(values: Seq<Scalar>, places: Seq<int>, a: int, b: int)
    requires
        values.len() == places.len(),
        is_consistent(values, places),
        0 <= a < values.len(),
        0 <= b < values.len(),
        a != b,
    ensures
        compares_before(values, places, a, b) ==> stands_before(values, places, a, b),
{
    lemma_lowest_before(values, places, a);
    lemma_lowest_before(values, places, b);
    if compares_before(values, places, a, b) {
        let f = standing(values, places, a);
        if values[a].nan() && values[b].nan() {
            if f != ABOVE_ALL {
                let d = choose|d: int| #[trigger]
                    is_number_before(values, places, d, a) && values[d].rank() == f;
                assert(is_number_before(values, places, d, b));
            }
        } else if values[a].nan() {
            if f != ABOVE_ALL {
                let d = choose|d: int| #[trigger]
                    is_number_before(values, places, d, a) && values[d].rank() == f;
                assert(compares_before(values, places, d, a));
                assert(compares_before(values, places, d, b));
            }
        } else if values[b].nan() {
            assert(is_number_before(values, places, a, b));
        }
    }
}

/// The places as numbers.
pub open spec fn numbers(places: Seq<usize>) -> Seq<int> {
    places.map_values(|p: usize| p as int)
}

/// `order` lists all items as they stand.
pub open spec fn is_ranking(values: Seq<Scalar>, places: Seq<int>, order: Seq<usize>) -> bool {
    &&& order.len() == values.len()
    &&& crate::order::covers(order, 0, values.len() as int)
    &&& forall|i: int, j: int|
        0 <= i < j < order.len() ==> stands_before(
            values,
            places,
            #[trigger] order[i] as int,
            #[trigger] order[j] as int,
        )
}

/// How high each item stands.
fn standings(values: &[Scalar], places: &[usize]) -> (out: Vec<i128>)
    requires
        places.len() == values.len(),
    ensures
        out.len() == values.len(),
        forall|c: int|
            0 <= c < out.len() ==> #[trigger] out[c] == standing(values@, numbers(places@), c),
        forall|c: int| 0 <= c < out.len() ==> -0x8000_0000 <= #[trigger] out[c] <= 0x8000_0000,
{
    let mut keys: Vec<i128> = Vec::with_capacity(places.len());
    let mut k: usize = 0;
    while k < places.len()
        invariant
            k <= places.len(),
            keys.len() == k,
            forall|i: int| 0 <= i < k ==> #[trigger] keys[i] == places[i],
        decreases places.len() - k,
    {
        keys.push(places[k] as i128);
        k = k + 1;
    }
    let order = stable_order(keys.as_slice());
    let ghost at = numbers(places@);
    let mut out: Vec<i128> = vec![0i128; values.len()];
    let mut lowest: i128 = ABOVE_ALL;
    let mut t: usize = 0;
    proof {
        crate::order::lemma_order_distinct(keys@, order@);
        assert forall|s: int, t: int| 0 <= s < order.len() && 0 <= t < order.len() implies (s < t
            <==> #[trigger] is_earlier(at, order@[s] as int, order@[t] as int)) by {
            let (a, b) = (order@[s] as int, order@[t] as int);
            assert(keys[a] == places[a] && keys[b] == places[b]);
            if s < t {
                assert(crate::order::precedes(keys@, order@[s] as int, order@[t] as int));
            } else if t < s {
                assert(crate::order::precedes(keys@, order@[t] as int, order@[s] as int));
            }
        }
    }
    while t < order.len()
        invariant
            t <= order.len(),
            order.len() == values.len() == places.len() == out.len(),
            at == numbers(places@),
            crate::order::covers(order@, 0, values.len() as int),
            order@.no_duplicates(),
            forall|s: int, u: int|
                0 <= s < order.len() && 0 <= u < order.len() ==> (s < u <==> #[trigger] is_earlier(
                    at,
                    order@[s] as int,
                    order@[u] as int,
                )),
            -0x8000_0000 <= lowest <= ABOVE_ALL,
            forall|s: int|
                0 <= s < t && !(values@[#[trigger] order@[s] as int]).nan() ==> lowest
                    <= values@[order@[s] as int].rank(),
            lowest == ABOVE_ALL || exists|s: int|
                0 <= s < t && !(values@[#[trigger] order@[s] as int]).nan()
                    && values@[order@[s] as int].rank() == lowest,
            forall|s: int|
                0 <= s < t ==> out@[#[trigger] order@[s] as int] == standing(
                    values@,
                    at,
                    order@[s] as int,
                ),
            forall|c: int| 0 <= c < out.len() ==> -0x8000_0000 <= #[trigger] out[c] <= 0x8000_0000,
        decreases order.len() - t,
    {
        let c: usize = order[t];
        let ghost before = out@;
        if values[c].is_nan() {
            proof {
                assert forall|d: int| #[trigger] is_number_before(values@, at, d, c as int) implies lowest
                    <= values@[d].rank() by {
                    assert(order@.contains(d as usize));
                    let s = choose|s: int| 0 <= s < order.len() && order@[s] == d as usize;
                    assert(is_earlier(at, order@[s] as int, order@[t as int] as int));
                }
                if lowest != ABOVE_ALL {
                    let s = choose|s: int|
                        0 <= s < t && !(values@[#[trigger] order@[s] as int]).nan()
                            && values@[order@[s] as int].rank() == lowest;
                    assert(is_earlier(at, order@[s] as int, order@[t as int] as int));
                    assert(is_number_before(values@, at, order@[s] as int, c as int));
                }
                lemma_lowest_unique(values@, at, c as int, lowest as int);
            }
            out.set(c, lowest);
        } else {
            let rank: i128 = values[c].order_key() as i128;
            out.set(c, rank);
            if rank < lowest {
                lowest = rank;
            }
        }
        proof {
            assert forall|s: int| 0 <= s < t + 1 implies out@[#[trigger] order@[s] as int]
                == standing(values@, at, order@[s] as int) by {
                if s < t {
                    assert(order@[s] != order@[t as int]);
                    assert(before[order@[s] as int] == standing(values@, at, order@[s] as int));
                }
            }
        }
        t = t + 1;
    }
    proof {
        assert forall|c: int| 0 <= c < out.len() implies #[trigger] out[c] == standing(
            values@,
            at,
            c,
        ) by {
            assert(order@.contains(c as usize));
            let s = choose|s: int| 0 <= s < order.len() && order@[s] == c as usize;
            assert(out@[order@[s] as int] == standing(values@, at, order@[s] as int));
        }
    }
    out
}

/// Lists all items, the highest first.
pub fn rank_descending(values: &[Scalar], places: &[usize]) -> (order: Vec<usize>)
    requires
        places.len() == values.len(),
    ensures
        is_ranking(values@, numbers(places@), order@),
        order@.no_duplicates(),
{
    let heights = standings(values, places);
    let mut keys: Vec<i128> = Vec::with_capacity(values.len());
    let mut k: usize = 0;
    while k < values.len()
        invariant
            k <= values.len(),
            places.len() == values.len() == heights.len(),
            keys.len() == k,
            forall|c: int|
                0 <= c < heights.len() ==> -0x8000_0000 <= #[trigger] heights[c] <= 0x8000_0000,
            forall|i: int|
                0 <= i < k ==> #[trigger] keys[i] == -heights[i] * 0x1_0000_0000_0000_0000
                    + places[i],
        decreases values.len() - k,
    {
        let height: i128 = heights[k];
        keys.push(-height * 0x1_0000_0000_0000_0000i128 + places[k] as i128);
        k = k + 1;
    }
    let order = stable_order(keys.as_slice());
    proof {
        crate::order::lemma_order_distinct(keys@, order@);
        assert forall|i: int, j: int| 0 <= i < j < order.len() implies stands_before(
            values@,
            numbers(places@),
            #[trigger] order@[i] as int,
            #[trigger] order@[j] as int,
        ) by {
            let (a, b) = (order@[i] as int, order@[j] as int);
            assert(crate::order::precedes(keys@, order@[i] as int, order@[j] as int));
            assert(keys[a] == -heights[a] * 0x1_0000_0000_0000_0000 + places[a]);
            assert(keys[b] == -heights[b] * 0x1_0000_0000_0000_0000 + places[b]);
            assert(heights[a] == standing(values@, numbers(places@), a));
            assert(heights[b] == standing(values@, numbers(places@), b));
        }
    }
    order
}

} // verus!
