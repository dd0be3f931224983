//! Spectral coordinates from the eigenvectors of the normalised Laplacian.
//!
//! Eigenvalues arrive as bit patterns and eigenvectors as any kind of number. What stands
//! here is what happens to them: they are put in ascending order of eigenvalue, the
//! non-trivial ones are selected, and their components become coordinates.

use vstd::prelude::*;

use crate::order::gather;
use crate::random::lcg_stream;
use crate::scalar::Scalar;

verus! {

/// Coordinates of `n` particles: three per particle in `coords`, two more in `extra`.
pub struct SpectralCoords<S> {
    pub n: usize,
    pub coords: Vec<S>,
    pub extra: Vec<S>,
}

impl<S: Copy> SpectralCoords<S> {
    /// Every particle has its coordinates.
    pub open spec fn wf(&self) -> bool {
        self.coords.len() == 3 * self.n && self.extra.len() == 2 * self.n
    }

    /// Coordinate `d` of particle `i`.
    pub open spec fn coord(&self, i: int, d: int) -> S {
        self.coords[3 * i + d]
    }

    /// The position of particle `i`.
    pub fn position(&self, i: usize) -> (pos: [S; 3])
        requires
            3 * i + 2 < self.coords.len(),
        ensures
            forall|d: int| 0 <= d < 3 ==> #[trigger] pos[d] == self.coord(i as int, d),
    {
        [self.coords[3 * i], self.coords[3 * i + 1], self.coords[3 * i + 2]]
    }
}

/// Number of Lanczos steps at most.
pub const KRYLOV: usize = 48;

/// How many eigenvectors are selected: three for the position, two more.
pub const MODES: usize = 5;

/// The pattern of 1e-6, below which an eigenvalue counts as zero.
pub const TRIVIAL: u32 = 0x3586_37bd;

/// The pattern of -1e-6, the lowest eigenvalue that is accepted.
pub const LOWEST: u32 = 0xb586_37bd;

/// Seed of the first Lanczos vector.
pub const START_SEED: u64 = 42;

/// Fewer particles than this have no spectral layout.
pub const SMALLEST_LAYOUT: usize = 4;

/// The number of Lanczos steps for `n` particles; none where there are too few particles for
/// a spectral layout, and all of them stay at the origin.
pub fn krylov_dim(n: usize) -> (k: Option<usize>)
    ensures
        k == if n < SMALLEST_LAYOUT {
            None::<usize>
        } else if n - 1 < KRYLOV {
            Some((n - 1) as usize)
        } else {
            Some(KRYLOV)
        },
        k is None <==> n < 4,
        k matches Some(steps) ==> steps < n && steps <= 48 && (steps == 48 || steps == n - 1),
{
    if n < SMALLEST_LAYOUT {
        None
    } else if n - 1 < KRYLOV {
        Some(n - 1)
    } else {
        Some(KRYLOV)
    }
}

/// The numbers behind the first Lanczos vector.
pub fn start_numbers(n: usize) -> (out: Vec<u32>)
    ensures
        out.len() == n,
        forall|i: int|
            0 <= i < n ==> #[trigger] out[i] == crate::random::yielded(
                crate::random::state_after(START_SEED, (i + 1) as nat),
            ),
        forall|i: int|
            0 <= i < n ==> #[trigger] out[i] == crate::random::yielded(
                crate::random::state_after(42, (i + 1) as nat),
            ),
{
    lcg_stream(START_SEED, n)
}

/// Seed of the vector that replaces Lanczos vector `j + 1` when the iteration has found an
/// invariant subspace.
pub open spec fn restart_seed(j: nat) -> u64 {
    (((START_SEED as nat * (j + 1)) % 0x1_0000_0000_0000_0000 + 999) % 0x1_0000_0000_0000_0000) as u64
}

/// Law: the seeds of replaced vectors start at 1041 and lie 42 apart, modulo 2^64.
pub proof fn law_restart_seeds_are_spaced(j: nat)
    ensures
        restart_seed(0) == 1041,
        restart_seed(j + 1) == (restart_seed(j) + 42) % 0x1_0000_0000_0000_0000,
{
    let m = 0x1_0000_0000_0000_0000int;
    let p = 42 * (j + 1) as int;
    vstd::arithmetic::div_mod::lemma_add_mod_noop(p, 999, m);
    vstd::arithmetic::div_mod::lemma_add_mod_noop(p % m, 999, m);
    vstd::arithmetic::div_mod::lemma_mod_twice(p, m);
    vstd::arithmetic::div_mod::lemma_add_mod_noop(p + 42, 999, m);
    vstd::arithmetic::div_mod::lemma_add_mod_noop((p + 42) % m, 999, m);
    vstd::arithmetic::div_mod::lemma_mod_twice(p + 42, m);
    vstd::arithmetic::div_mod::lemma_add_mod_noop(p + 999, 42, m);
    vstd::arithmetic::div_mod::lemma_add_mod_noop((p + 999) % m, 42, m);
    vstd::arithmetic::div_mod::lemma_mod_twice(p + 999, m);
}

/// The numbers behind the vector that replaces Lanczos vector `j + 1`.
pub fn restart_numbers(j: usize, n: usize) -> (out: Vec<u32>)
    requires
        j < u64::MAX,
    ensures
        out.len() == n,
        forall|i: int|
            0 <= i < n ==> #[trigger] out[i] == crate::random::yielded(
                crate::random::state_after(restart_seed(j as nat), (i + 1) as nat),
            ),
{
    let seed: u64 = START_SEED.wrapping_mul(j as u64 + 1).wrapping_add(999);
    assert(seed == restart_seed(j as nat));
    lcg_stream(seed, n)
}

/// The ranks of a list of values.
pub open spec fn ranks(values: Seq<Scalar>) -> Seq<i128> {
    values.map_values(|v: Scalar| v.rank() as i128)
}

/// Where value `v` goes among the first `upto` of the values that `order` lists: after the last
/// one that is not greater.
pub open spec fn slot_of(values: Seq<Scalar>, order: Seq<usize>, v: Scalar, upto: nat) -> nat
    decreases upto,
{
    if upto == 0 {
        0
    } else if v.less(values[order[upto - 1] as int]) {
        slot_of(values, order, v, (upto - 1) as nat)
    } else {
        upto
    }
}

/// The first `count` values in ascending order, each put in its slot among those before it.
/// What is not a number is neither less nor greater: it stays behind what stands before it,
/// and nothing passes it.
pub open spec fn ascending_order(values: Seq<Scalar>, count: nat) -> Seq<usize>
    decreases count,
{
    if count == 0 {
        Seq::empty()
    } else {
        let before = ascending_order(values, (count - 1) as nat);
        before.insert(
            slot_of(values, before, values[count - 1], before.len()) as int,
            (count - 1) as usize,
        )
    }
}

proof fn lemma_slot_bound(values: Seq<Scalar>, order: Seq<usize>, v: Scalar, upto: nat)
    ensures
        slot_of(values, order, v, upto) <= upto,
    decreases upto,
{
    if upto > 0 {
        lemma_slot_bound(values, order, v, (upto - 1) as nat);
    }
}

/// The order lists every index below `count`.
proof fn lemma_ascending_covers(values: Seq<Scalar>, count: nat)
    requires
        count <= values.len() <= usize::MAX,
    ensures
        ascending_order(values, count).len() == count,
        crate::order::covers(ascending_order(values, count), 0, count as int),
    decreases count,
{
    if count > 0 {
        let before = ascending_order(values, (count - 1) as nat);
        let now = ascending_order(values, count);
        lemma_ascending_covers(values, (count - 1) as nat);
        lemma_slot_bound(values, before, values[count - 1], before.len());
        let at = slot_of(values, before, values[count - 1], before.len()) as int;
        assert forall|i: int| 0 <= i < now.len() implies 0 <= #[trigger] now[i] < count by {
            if i < at {
                assert(now[i] == before[i]);
            } else if i > at {
                assert(now[i] == before[i - 1]);
            }
        }
        assert forall|v: usize| 0 <= v < count implies #[trigger] now.contains(v) by {
            if v == count - 1 {
                assert(now[at] == v);
            } else {
                assert(before.contains(v));
                let i = choose|i: int| 0 <= i < before.len() && before[i] == v;
                if i < at {
                    assert(now[i] == v);
                } else {
                    assert(now[i + 1] == v);
                }
            }
        }
    }
}

/// Law: where all values are numbers, the order is the stable ascending one.
pub proof fn law_numbers_ascend(values: Seq<Scalar>)
    requires
        values.len() <= usize::MAX,
        forall|i: int| 0 <= i < values.len() ==> !(#[trigger] values[i]).nan(),
    ensures
        crate::order::is_order_of(ranks(values), ascending_order(values, values.len())),
{
    lemma_ascending_covers(values, values.len());
    lemma_numbers_ascend(values, values.len());
}

proof fn lemma_numbers_ascend(values: Seq<Scalar>, count: nat)
    requires
        count <= values.len() <= usize::MAX,
        forall|i: int| 0 <= i < values.len() ==> !(#[trigger] values[i]).nan(),
    ensures
        crate::order::is_ascending(ranks(values), ascending_order(values, count)),
    decreases count,
{
    if count > 0 {
        let before = ascending_order(values, (count - 1) as nat);
        let now = ascending_order(values, count);
        let v = values[count - 1];
        lemma_ascending_covers(values, (count - 1) as nat);
        lemma_numbers_ascend(values, (count - 1) as nat);
        lemma_slot_bound(values, before, v, before.len());
        lemma_slot_parts(values, before, v, before.len());
        let at = slot_of(values, before, v, before.len()) as int;
        let keys = ranks(values);
        assert forall|i: int, j: int| 0 <= i < j < now.len() implies crate::order::precedes(
            keys,
            #[trigger] now[i] as int,
            #[trigger] now[j] as int,
        ) by {
            let a = if i < at { i } else { i - 1 };
            let b = if j < at { j } else { j - 1 };
            if i == at {
                assert(now[j] == before[b]);
                assert(v.less(values[before[b] as int]));
            } else if j == at {
                assert(now[i] == before[a]);
                let last = at - 1;
                assert(!v.less(values[before[last] as int]));
                if a < last {
                    assert(crate::order::precedes(keys, before[a] as int, before[last] as int));
                }
            } else {
                assert(now[i] == before[a] && now[j] == before[b]);
            }
        }
    }
}

/// Law: what is not a number stays behind all that stood before it, and nothing that stood behind
/// it passes it.
pub proof fn law_no_number_is_passed(values: Seq<Scalar>, count: nat, a: int, b: int)
    requires
        count <= values.len() <= usize::MAX,
        0 <= a < count,
        0 <= b < count,
        ascending_order(values, count)[a] < ascending_order(values, count)[b],
        values[ascending_order(values, count)[a] as int].nan() || values[ascending_order(
            values,
            count,
        )[b] as int].nan(),
    ensures
        a < b,
    decreases count,
{
    let before = ascending_order(values, (count - 1) as nat);
    let now = ascending_order(values, count);
    let v = values[count - 1];
    lemma_ascending_covers(values, (count - 1) as nat);
    lemma_slot_bound(values, before, v, before.len());
    lemma_slot_parts(values, before, v, before.len());
    let at = slot_of(values, before, v, before.len()) as int;
    let c = if a < at { a } else { a - 1 };
    let d = if b < at { b } else { b - 1 };
    if a == at {
        assert(now[b] == before[d]);
    } else if b == at {
        assert(now[a] == before[c]);
        if a > at {
            assert(v.less(values[before[c] as int]));
        }
    } else {
        assert(now[a] == before[c] && now[b] == before[d]);
        law_no_number_is_passed(values, (count - 1) as nat, c, d);
    }
}

/// What follows the slot is greater; what stands right before it is not.
proof fn lemma_slot_parts(values: Seq<Scalar>, order: Seq<usize>, v: Scalar, upto: nat)
    ensures
        ({
            let at = slot_of(values, order, v, upto);
            &&& forall|i: int| at <= i < upto ==> v.less(values[#[trigger] order[i] as int])
            &&& at > 0 ==> !v.less(values[order[at - 1] as int])
        }),
    decreases upto,
{
    if upto > 0 {
        lemma_slot_parts(values, order, v, (upto - 1) as nat);
    }
}

/// `(sorted, columns)` are the eigenpairs `(values, vectors)` in the order `order`; column
/// `c` of the row-major `k` by `k` matrix belongs to eigenvalue `c`.
pub open spec fn is_reordering<S>(
    values: Seq<Scalar>,
    vectors: Seq<S>,
    order: Seq<usize>,
    sorted: Seq<Scalar>,
    columns: Seq<S>,
) -> bool {
    let k = values.len() as int;
    &&& sorted.len() == k
    &&& columns.len() == vectors.len()
    &&& forall|c: int| 0 <= c < k ==> #[trigger] sorted[c] == values[order[c] as int]
    &&& forall|row: int, c: int|
        0 <= row < k && 0 <= c < k ==> #[trigger] columns[row * k + c] == vectors[row * k
            + order[c]]
}

/// The order in which the values ascend.
fn order_ascending(values: &[Scalar]) -> (order: Vec<usize>)
    ensures
        order@ == ascending_order(values@, values@.len()),
{
    let mut order: Vec<usize> = Vec::with_capacity(values.len());
    let mut i: usize = 0;
    while i < values.len()
        invariant
            i <= values.len(),
            order@ == ascending_order(values@, i as nat),
        decreases values.len() - i,
    {
        proof {
            lemma_ascending_covers(values@, i as nat);
        }
        let mut at: usize = i;
        while at > 0 && values[i].is_less(values[order[at - 1]])
            invariant
                at <= i < values.len(),
                order.len() == i,
                crate::order::covers(order@, 0, i as int),
                slot_of(values@, order@, values@[i as int], i as nat) == slot_of(
                    values@,
                    order@,
                    values@[i as int],
                    at as nat,
                ),
            decreases at,
        {
            at = at - 1;
        }
        order.insert(at, i);
        i = i + 1;
    }
    order
}

/// Puts eigenpairs in ascending order of eigenvalue; equal eigenvalues keep their order.
/// `vectors` is a row-major square matrix whose column `c` is the eigenvector of
/// `values[c]`.
pub fn sort_modes<S: Copy>(values: &[Scalar], vectors: &[S]) -> (r: (Vec<Scalar>, Vec<S>))
    requires
        vectors.len() == values.len() * values.len(),
    ensures
        is_reordering(
            values@,
            vectors@,
            ascending_order(values@, values@.len()),
            r.0@,
            r.1@,
        ),
{
    let k: usize = values.len();
    let order = order_ascending(values);
    proof {
        lemma_ascending_covers(values@, values@.len());
    }
    let sorted = gather(values, order.as_slice());
    let mut columns: Vec<S> = Vec::with_capacity(vectors.len());
    let mut row: usize = 0;
    while row < k
        invariant
            row <= k,
            k == values.len(),
            vectors.len() == k * k,
            order.len() == k,
            forall|c: int| 0 <= c < k ==> #[trigger] order[c] < k,
            columns.len() == row * k,
            forall|r: int, c: int|
                0 <= r < row && 0 <= c < k ==> #[trigger] columns[r * k + c] == vectors[r * k
                    + order[c]],
        decreases k - row,
    {
        let mut c: usize = 0;
        let ghost done = columns@;
        proof {
            assert(row * k + k == (row + 1) * k) by (nonlinear_arith);
            assert((row + 1) * k <= k * k) by (nonlinear_arith)
                requires
                    row + 1 <= k,
            ;
        }
        while c < k
            invariant
                c <= k,
                row < k,
                k == values.len(),
                vectors.len() == k * k,
                row * k + k == (row + 1) * k,
                (row + 1) * k <= k * k,
                order.len() == k,
                forall|j: int| 0 <= j < k ==> #[trigger] order[j] < k,
                done.len() == row * k,
                columns.len() == row * k + c,
                forall|j: int| 0 <= j < done.len() ==> #[trigger] columns[j] == done[j],
                forall|j: int|
                    0 <= j < c ==> #[trigger] columns[row * k + j] == vectors[row * k + order[j]],
            decreases k - c,
        {
            assert(order[c as int] < k);
            columns.push(vectors[row * k + order[c]]);
            c = c + 1;
        }
        proof {
            assert forall|r: int, j: int| 0 <= r < row + 1 && 0 <= j < k implies #[trigger] columns[r
                * k + j] == vectors[r * k + order[j]] by {
                if r < row {
                    assert(r * k + j < row * k && 0 <= r * k + j) by (nonlinear_arith)
                        requires
                            0 <= r < row,
                            0 <= j < k,
                    ;
                    assert(columns[r * k + j] == done[r * k + j]);
                }
            }
        }
        row = row + 1;
    }
    assert(is_reordering(values@, vectors@, order@, sorted@, columns@));
    (sorted, columns)
}

/// The eigenvalue is at least -1e-6.
pub open spec fn is_nonnegative(v: Scalar) -> bool {
    (Scalar { bits: LOWEST }).at_most(v)
}

/// The eigenvalue is not negative, and not within 1e-6 of zero.
pub open spec fn is_nontrivial(v: Scalar) -> bool {
    is_nonnegative(v) && !v.absolute().less(Scalar { bits: TRIVIAL })
}

/// Eigenvalue `j` is accepted: it is not negative, and it or an earlier one is not trivial.
pub open spec fn is_accepted(values: Seq<Scalar>, j: int) -> bool {
    &&& 0 <= j < values.len()
    &&& is_nonnegative(values[j])
    &&& exists|i: int| 0 <= i <= j && is_nontrivial(#[trigger] values[i])
}

/// `modes` selects five of the eigenvalues, or all of them if there are fewer: first the
/// accepted ones in order, then the remaining ones in order.
pub open spec fn is_selection(values: Seq<Scalar>, modes: Seq<usize>, accepted: int) -> bool {
    let k = values.len();
    &&& modes.len() == if k < MODES {
        k
    } else {
        MODES as nat
    }
    &&& 0 <= accepted <= modes.len()
    &&& forall|t: int| 0 <= t < modes.len() ==> #[trigger] modes[t] < k
    &&& modes.no_duplicates()
    &&& forall|s: int, t: int|
        0 <= s < t < accepted ==> #[trigger] modes[s] < #[trigger] modes[t]
    &&& forall|t: int| 0 <= t < accepted ==> is_accepted(values, #[trigger] modes[t] as int)
    &&& forall|j: usize| #[trigger]
        is_accepted(values, j as int) && (accepted < MODES || j < modes[MODES - 1])
            ==> modes.take(accepted).contains(j)
    &&& forall|t: int, j: usize|
        accepted <= t < modes.len() && j < modes[t] ==> #[trigger] modes.take(t).contains(j)
}

/// Selects the eigenvectors that become coordinates.
pub fn select_modes(values: &[Scalar]) -> (modes: Vec<usize>)
    ensures
        exists|accepted: int| is_selection(values@, modes@, accepted),
{
    let k: usize = values.len();
    let mut modes: Vec<usize> = Vec::new();
    let mut j: usize = 0;
    while j < k && modes.len() < MODES
        invariant
            j <= k == values.len(),
            modes.len() <= MODES,
            forall|t: int|
                0 <= t < modes.len() ==> #[trigger] modes[t] < j && is_accepted(
                    values@,
                    modes[t] as int,
                ),
            forall|s: int, t: int|
                0 <= s < t < modes.len() ==> #[trigger] modes[s] < #[trigger] modes[t],
            forall|i: usize| #[trigger]
                is_accepted(values@, i as int) && i < j ==> modes@.contains(i),
        decreases k - j,
    {
        let ghost before = modes@;
        let value = values[j];
        let trivial: bool = value.abs().is_less(Scalar { bits: TRIVIAL });
        let accept: bool = !(trivial && modes.len() == 0) && (Scalar { bits: LOWEST }).is_at_most(
            value,
        );
        if accept {
            modes.push(j);
        }
        proof {
            if accept {
                if before.len() == 0 {
                    assert(is_nontrivial(values@[j as int]));
                } else {
                    assert(is_accepted(values@, before[0] as int));
                    let i = choose|i: int|
                        0 <= i <= before[0] && is_nontrivial(#[trigger] values@[i]);
                    assert(is_nontrivial(values@[i]));
                }
                assert(is_accepted(values@, j as int));
                assert(modes@[before.len() as int] == j);
            } else if is_accepted(values@, j as int) {
                let i = choose|i: int| 0 <= i <= j && is_nontrivial(#[trigger] values@[i]);
                if i < j {
                    assert(is_accepted(values@, i));
                    assert(before.contains(i as usize));
                }
            }
            assert forall|i: usize| #[trigger] is_accepted(values@, i as int) && i < j
                + 1 implies modes@.contains(i) by {
                if i < j {
                    assert(before.contains(i));
                    let t = choose|t: int| 0 <= t < before.len() && before[t] == i;
                    assert(modes@[t] == i);
                }
            }
        }
        j = j + 1;
    }
    let ghost accepted = modes.len() as int;
    let ghost chosen = modes@;
    let mut i: usize = 0;
    proof {
        assert(modes@.take(accepted) =~= chosen);
    }
    while i < k && modes.len() < MODES
        invariant
            i <= k == values.len(),
            modes.len() <= MODES,
            0 <= accepted <= modes.len(),
            accepted == chosen.len(),
            modes@.take(accepted) == chosen,
            forall|t: int| 0 <= t < modes.len() ==> #[trigger] modes[t] < k,
            modes@.no_duplicates(),
            forall|x: usize| x < i ==> #[trigger] modes@.contains(x),
            forall|t: int| accepted <= t < modes.len() ==> #[trigger] modes[t] < i,
            forall|t: int, x: usize|
                accepted <= t < modes.len() && x < modes[t] ==> #[trigger] modes@.take(t).contains(x),
            accepted < MODES ==> forall|x: usize| #[trigger]
                is_accepted(values@, x as int) ==> chosen.contains(x),
        decreases k - i,
    {
        let ghost before = modes@;
        if !lists(&modes, i) {
            modes.push(i);
        }
        proof {
            assert forall|x: usize| x < i + 1 implies #[trigger] modes@.contains(x) by {
                if before.contains(x) {
                    let t = choose|t: int| 0 <= t < before.len() && before[t] == x;
                    assert(modes@[t] == x);
                } else {
                    assert(modes@[before.len() as int] == x);
                }
            }
            assert forall|t: int, x: usize|
                accepted <= t < modes.len() && x < modes[t] implies #[trigger] modes@.take(
                t,
            ).contains(x) by {
                if t < before.len() {
                    assert(modes@.take(t) =~= before.take(t));
                    assert(before.take(t).contains(x));
                } else {
                    assert(modes@.take(t) =~= before);
                    assert(before.contains(x));
                }
            }
            assert(modes@.take(accepted) =~= before.take(accepted));
        }
        i = i + 1;
    }
    proof {
        if modes.len() < MODES {
            lemma_all_listed(modes@, k as nat);
        }
        lemma_distinct_bounded(modes@, k as nat);
        assert forall|s: int, t: int| 0 <= s < t < accepted implies #[trigger] modes@[s]
            < #[trigger] modes@[t] by {
            assert(modes@.take(accepted)[s] == chosen[s] && modes@.take(accepted)[t] == chosen[t]);
        }
        assert forall|t: int| 0 <= t < accepted implies is_accepted(
            values@,
            #[trigger] modes@[t] as int,
        ) by {
            assert(modes@.take(accepted)[t] == chosen[t]);
        }
        assert forall|x: usize| #[trigger]
            is_accepted(values@, x as int) && (accepted < MODES || x < modes@[MODES
                - 1]) implies modes@.take(accepted).contains(x) by {
            if accepted == MODES {
                assert(modes@.take(accepted)[MODES - 1] == chosen[MODES - 1]);
            }
        }
        assert(is_selection(values@, modes@, accepted));
    }
    modes
}

fn lists(modes: &Vec<usize>, j: usize) -> (r: bool)
    ensures
        r == modes@.contains(j),
{
    let mut t: usize = 0;
    while t < modes.len()
        invariant
            t <= modes.len(),
            forall|s: int| 0 <= s < t ==> #[trigger] modes[s] != j,
        decreases modes.len() - t,
    {
        if modes[t] == j {
            return true;
        }
        t = t + 1;
    }
    false
}

/// A list that holds every index below `k` is at least that long.
proof fn lemma_all_listed(modes: Seq<usize>, k: nat)
    requires
        forall|x: usize| x < k ==> #[trigger] modes.contains(x),
        k <= usize::MAX,
    ensures
        k <= modes.len(),
    decreases k,
{
    if k > 0 {
        let top = (k - 1) as usize;
        assert(modes.contains(top));
        let p = choose|p: int| 0 <= p < modes.len() && modes[p] == top;
        let rest = modes.remove(p);
        assert forall|x: usize| x < k - 1 implies #[trigger] rest.contains(x) by {
            assert(modes.contains(x));
            let q = choose|q: int| 0 <= q < modes.len() && modes[q] == x;
            if q < p {
                assert(rest[q] == x);
            } else {
                assert(rest[q - 1] == x);
            }
        }
        lemma_all_listed(rest, (k - 1) as nat);
    }
}

/// A list of distinct indices below `k` is at most that long.
proof fn lemma_distinct_bounded(modes: Seq<usize>, k: nat)
    requires
        modes.no_duplicates(),
        forall|t: int| 0 <= t < modes.len() ==> #[trigger] modes[t] < k,
    ensures
        modes.len() <= k,
    decreases k,
{
    if modes.len() > 0 {
        assert(modes[0] < k);
        let top = k - 1;
        if modes.contains(top as usize) && top <= usize::MAX {
            let p = choose|p: int| 0 <= p < modes.len() && modes[p] == top as usize;
            let rest = modes.remove(p);
            assert forall|t: int| 0 <= t < rest.len() implies #[trigger] rest[t] < k - 1 by {
                if t < p {
                    assert(rest[t] == modes[t] && modes[t] != modes[p]);
                } else {
                    assert(rest[t] == modes[t + 1] && modes[t + 1] != modes[p]);
                }
            }
            assert(rest.no_duplicates()) by {
                assert forall|a: int, b: int|
                    0 <= a < rest.len() && 0 <= b < rest.len() && a != b implies rest[a] != rest[b] by {
                    let x = if a < p { a } else { a + 1 };
                    let y = if b < p { b } else { b + 1 };
                    assert(rest[a] == modes[x] && rest[b] == modes[y]);
                }
            }
            lemma_distinct_bounded(rest, (k - 1) as nat);
        } else {
            assert forall|t: int| 0 <= t < modes.len() implies #[trigger] modes[t] < k - 1 by {
                if modes[t] == top {
                    assert(modes.contains(top as usize));
                }
            }
            lemma_distinct_bounded(modes, (k - 1) as nat);
        }
    }
}

/// Component `p` of mode `m`, or `zero` where there is no such mode.
pub open spec fn component<S>(modes: Seq<Vec<S>>, zero: S, m: int, p: int) -> S {
    if m < modes.len() {
        modes[m]@[p]
    } else {
        zero
    }
}

/// Interleaves modes `first` to `first + width`: component `p` of each becomes row `p`.
fn interleave<S: Copy>(
    n: usize,
    modes: &[Vec<S>],
    first: usize,
    width: usize,
    zero: S,
) -> (out: Vec<S>)
    requires
        forall|m: int| 0 <= m < modes.len() ==> (#[trigger] modes[m]).len() == n,
        1 <= width <= 3,
        first <= 3,
        width * n <= usize::MAX,
    ensures
        out.len() == width * n,
        forall|p: int, d: int|
            0 <= p < n && 0 <= d < width ==> #[trigger] out[width * p + d] == component(
                modes@,
                zero,
                first + d,
                p,
            ),
{
    let mut out: Vec<S> = Vec::with_capacity(width * n);
    let mut p: usize = 0;
    while p < n
        invariant
            p <= n,
            1 <= width <= 3,
            first <= 3,
            forall|m: int| 0 <= m < modes.len() ==> (#[trigger] modes[m]).len() == n,
            out.len() == width * p,
            forall|q: int, d: int|
                0 <= q < p && 0 <= d < width ==> #[trigger] out[width * q + d] == component(
                    modes@,
                    zero,
                    first + d,
                    q,
                ),
        decreases n - p,
    {
        let ghost before = out@;
        let mut d: usize = 0;
        while d < width
            invariant
                p < n,
                d <= width <= 3,
                first <= 3,
                forall|m: int| 0 <= m < modes.len() ==> (#[trigger] modes[m]).len() == n,
                before.len() == width * p,
                out.len() == width * p + d,
                forall|j: int| 0 <= j < before.len() ==> #[trigger] out[j] == before[j],
                forall|j: int|
                    0 <= j < d ==> #[trigger] out[width * p + j] == component(
                        modes@,
                        zero,
                        first + j,
                        p as int,
                    ),
            decreases width - d,
        {
            let value: S = if first + d < modes.len() {
                modes[first + d][p]
            } else {
                zero
            };
            out.push(value);
            d = d + 1;
        }
        proof {
            assert(width * (p + 1) == width * p + width) by (nonlinear_arith);
            assert forall|q: int, j: int| 0 <= q < p + 1 && 0 <= j < width implies #[trigger] out[width
                * q + j] == component(modes@, zero, first + j, q) by {
                if q < p {
                    assert(0 <= width * q + j < width * p) by (nonlinear_arith)
                        requires
                            0 <= q < p,
                            0 <= j < width,
                    ;
                    assert(out[width * q + j] == before[width * q + j]);
                }
            }
        }
        p = p + 1;
    }
    out
}

impl<S: Copy> SpectralCoords<S> {
    /// Coordinates from the components of up to five modes: the first three give the
    /// position, the others the extra coordinates. Missing modes give `zero`.
    pub fn from_modes(n: usize, modes: &[Vec<S>], zero: S) -> (r: Self)
        requires
            3 * n <= usize::MAX,
            forall|m: int| 0 <= m < modes.len() ==> (#[trigger] modes[m]).len() == n,
        ensures
            r.n == n,
            r.wf(),
            forall|p: int, d: int|
                0 <= p < n && 0 <= d < 3 ==> #[trigger] r.coords[3 * p + d] == component(
                    modes@,
                    zero,
                    d,
                    p,
                ),
            forall|p: int, d: int|
                0 <= p < n && 0 <= d < 2 ==> #[trigger] r.extra[2 * p + d] == component(
                    modes@,
                    zero,
                    3 + d,
                    p,
                ),
            forall|p: int, d: int|
                0 <= p < n && 0 <= d < 3 && d < modes.len() ==> #[trigger] r.coords[3 * p + d]
                    == modes[d][p],
            forall|p: int, d: int|
                0 <= p < n && 0 <= d < 3 && modes.len() <= d ==> #[trigger] r.coords[3 * p + d]
                    == zero,
            forall|p: int, d: int|
                0 <= p < n && 0 <= d < 2 && 3 + d < modes.len() ==> #[trigger] r.extra[2 * p + d]
                    == modes[3 + d][p],
            forall|p: int, d: int|
                0 <= p < n && 0 <= d < 2 && modes.len() <= 3 + d ==> #[trigger] r.extra[2 * p + d]
                    == zero,
    {
        let coords = interleave(n, modes, 0, 3, zero);
        let extra = interleave(n, modes, 3, 2, zero);
        SpectralCoords { n, coords, extra }
    }
}

/// Law: there are five modes, or as many as there are eigenvalues, and none twice.
pub proof fn law_modes_are_distinct(values: Seq<Scalar>, modes: Seq<usize>, accepted: int)
    requires
        is_selection(values, modes, accepted),
    ensures
        modes.len() == if values.len() < 5 {
            values.len()
        } else {
            5
        },
        forall|t: int| 0 <= t < modes.len() ==> #[trigger] modes[t] < values.len(),
        forall|s: int, t: int| 0 <= s < t < modes.len() ==> modes[s] != modes[t],
{
}

/// Law: the first mode is the first eigenvalue of at least 1e-6, or of exactly -1e-6; smaller
/// and negative ones before it are skipped.
pub proof fn law_first_mode_is_the_first_nontrivial(
    values: Seq<Scalar>,
    modes: Seq<usize>,
    accepted: int,
    first: int,
)
    requires
        is_selection(values, modes, accepted),
        values.len() <= usize::MAX,
        0 <= first < values.len(),
        (Scalar { bits: 0x3586_37bd }).at_most(values[first]) || values[first].bits == 0xb586_37bd,
        forall|i: int|
            0 <= i < first ==> !(Scalar { bits: 0x3586_37bd }).at_most(#[trigger] values[i])
                && values[i].bits != 0xb586_37bd,
    ensures
        modes[0] == first,
{
    assert(is_nontrivial(values[first]));
    assert(is_accepted(values, first));
    assert(is_accepted(values, (first as usize) as int));
    if accepted == 0 {
        assert(modes.take(accepted).contains(first as usize));
    }
    let m = modes[0] as int;
    assert(is_accepted(values, m));
    let i = choose|i: int| 0 <= i <= m && is_nontrivial(#[trigger] values[i]);
    assert(is_nontrivial(values[i]));
    if first < m {
        if accepted == MODES {
            lemma_chosen_ascend(values, modes, accepted, 0, MODES - 1);
        }
        assert(modes.take(accepted).contains(first as usize));
        let t = choose|t: int| 0 <= t < accepted && modes.take(accepted)[t] == first as usize;
        assert(modes[t] == first);
        if t > 0 {
            assert(modes[0] < modes[t]);
        }
    }
}

proof fn lemma_chosen_ascend(
    values: Seq<Scalar>,
    modes: Seq<usize>,
    accepted: int,
    s: int,
    t: int,
)
    requires
        is_selection(values, modes, accepted),
        0 <= s <= t < accepted,
    ensures
        modes[s] <= modes[t],
{
    if s < t {
        assert(modes[s] < modes[t]);
    }
}

/// Law: an eigenvalue that is not at least -1e-6 becomes a mode only after every one of at least
/// 1e-6.
pub proof fn law_negative_modes_come_last(
    values: Seq<Scalar>,
    modes: Seq<usize>,
    accepted: int,
    t: int,
    j: int,
)
    requires
        is_selection(values, modes, accepted),
        values.len() <= usize::MAX,
        0 <= t < modes.len(),
        !(Scalar { bits: 0xb586_37bd }).at_most(values[modes[t] as int]),
        0 <= j < values.len(),
        (Scalar { bits: 0x3586_37bd }).at_most(values[j]),
    ensures
        exists|s: int| 0 <= s < t && modes[s] == j,
{
    assert(!is_accepted(values, modes[t] as int));
    assert(accepted <= t);
    assert(is_nontrivial(values[j]));
    assert(is_accepted(values, (j as usize) as int));
    assert(modes.take(accepted).contains(j as usize));
    let s = choose|s: int| 0 <= s < accepted && modes.take(accepted)[s] == j as usize;
    assert(modes[s] == j);
}

/// Law: of eigenvalues in ascending order the modes are those from the first of at least 1e-6
/// on, in order, and after them, where there are too few, the skipped ones from the first on.
pub proof fn law_modes_of_ascending_values(
    values: Seq<Scalar>,
    modes: Seq<usize>,
    accepted: int,
    first: int,
    t: int,
)
    requires
        is_selection(values, modes, accepted),
        values.len() <= usize::MAX,
        forall|i: int| 0 <= i < values.len() ==> !(#[trigger] values[i]).nan(),
        forall|i: int, j: int|
            0 <= i <= j < values.len() ==> (#[trigger] values[i]).rank() <= (
            #[trigger] values[j]).rank(),
        forall|i: int| 0 <= i < values.len() ==> (#[trigger] values[i]).bits != 0xb586_37bd,
        0 <= first <= values.len(),
        forall|i: int|
            first <= i < values.len() ==> (Scalar { bits: 0x3586_37bd }).at_most(
                #[trigger] values[i],
            ),
        forall|i: int|
            0 <= i < first ==> !(Scalar { bits: 0x3586_37bd }).at_most(#[trigger] values[i]),
        0 <= t < modes.len(),
    ensures
        modes[t] == if first + t < values.len() {
            first + t
        } else {
            first + t - values.len()
        },
    decreases t,
{
    assert forall|j: int| #[trigger] is_accepted(values, j) <==> first <= j < values.len() by {
        if first <= j < values.len() {
            assert(is_nontrivial(values[j]));
        }
        if is_accepted(values, j) {
            let i = choose|i: int| 0 <= i <= j && is_nontrivial(#[trigger] values[i]);
            assert(is_nontrivial(values[i]));
            if i < first {
                assert(!(Scalar { bits: 0x3586_37bd }).at_most(values[i]));
            }
        }
    }
    let k = values.len() as int;
    assert forall|s: int| 0 <= s < t implies #[trigger] modes[s] == if first + s < k {
        first + s
    } else {
        first + s - k
    } by {
        law_modes_of_ascending_values(values, modes, accepted, first, s);
    }
    let m = modes[t] as int;
    if first + t < k {
        let want = (first + t) as usize;
        // The next one is accepted and not listed yet.
        assert(is_accepted(values, want as int));
        if t < accepted {
            assert(is_accepted(values, m));
            if m < want {
                assert(modes[m - first] == m);
            } else if want < m {
                if accepted == MODES {
                    lemma_chosen_ascend(values, modes, accepted, t, MODES - 1);
                }
                assert(modes.take(accepted).contains(want));
                let s = choose|s: int| 0 <= s < accepted && modes.take(accepted)[s] == want;
                assert(modes[s] == want);
                if s > t {
                    assert(modes[t] < modes[s]);
                }
            }
        } else {
            assert(accepted < MODES);
            assert(modes.take(accepted).contains(want));
            let s = choose|s: int| 0 <= s < accepted && modes.take(accepted)[s] == want;
            assert(modes[s] == want);
        }
    } else {
        let want = (first + t - k) as usize;
        if t < accepted {
            assert(is_accepted(values, m));
            assert(modes[m - first] == m);
        } else if want < m {
            assert(modes.take(t).contains(want));
            let s = choose|s: int| 0 <= s < t && modes.take(t)[s] == want;
            assert(modes[s] == want);
        } else if m < want {
            assert(modes[k - first + m] == m);
        }
    }
}

/// Law: eigenpairs are moved whole and none is lost: behind each value stands the column that
/// stood behind it, and different places take from different places. Where all values are
/// numbers, they do not descend.
pub proof fn law_eigenpairs_move_together<S>(
    values: Seq<Scalar>,
    vectors: Seq<S>,
    sorted: Seq<Scalar>,
    columns: Seq<S>,
) -> (from: Seq<int>)
    requires
        values.len() <= usize::MAX,
        is_reordering(values, vectors, ascending_order(values, values.len()), sorted, columns),
    ensures
        sorted.len() == values.len(),
        from.len() == values.len(),
        forall|c: int| 0 <= c < from.len() ==> 0 <= #[trigger] from[c] < values.len(),
        forall|c: int, d: int| 0 <= c < d < from.len() ==> from[c] != from[d],
        forall|c: int| 0 <= c < from.len() ==> #[trigger] sorted[c] == values[from[c]],
        forall|row: int, c: int|
            0 <= row < values.len() && 0 <= c < values.len() ==> #[trigger] columns[row
                * values.len() + c] == vectors[row * values.len() + from[c]],
        (forall|i: int| 0 <= i < values.len() ==> !(#[trigger] values[i]).nan()) ==> forall|
            c: int,
            d: int,
        |
            0 <= c < d < sorted.len() ==> (#[trigger] sorted[c]).rank() <= (
            #[trigger] sorted[d]).rank() && (sorted[c].rank() == sorted[d].rank() ==> from[c]
                < from[d]),
{
    let order = ascending_order(values, values.len());
    lemma_ascending_covers(values, values.len());
    lemma_ascending_distinct(values, values.len());
    let from = order.map_values(|v: usize| v as int);
    if forall|i: int| 0 <= i < values.len() ==> !(#[trigger] values[i]).nan() {
        law_numbers_ascend(values);
        let keys = ranks(values);
        assert forall|c: int, d: int| 0 <= c < d < sorted.len() implies (
        #[trigger] sorted[c]).rank() <= (#[trigger] sorted[d]).rank() && (sorted[c].rank()
            == sorted[d].rank() ==> from[c] < from[d]) by {
            assert(crate::order::precedes(keys, order[c] as int, order[d] as int));
            assert(sorted[c] == values[order[c] as int] && sorted[d] == values[order[d] as int]);
        }
    }
    assert forall|c: int, d: int| 0 <= c < d < from.len() implies from[c] != from[d] by {
        assert(order[c] != order[d]);
    }
    from
}

proof fn lemma_ascending_distinct(values: Seq<Scalar>, count: nat)
    requires
        count <= values.len() <= usize::MAX,
    ensures
        ascending_order(values, count).no_duplicates(),
    decreases count,
{
    if count > 0 {
        let before = ascending_order(values, (count - 1) as nat);
        let now = ascending_order(values, count);
        lemma_ascending_covers(values, (count - 1) as nat);
        lemma_ascending_distinct(values, (count - 1) as nat);
        lemma_slot_bound(values, before, values[count - 1], before.len());
        let at = slot_of(values, before, values[count - 1], before.len()) as int;
        assert forall|i: int, j: int|
            0 <= i < now.len() && 0 <= j < now.len() && i != j implies now[i] != now[j] by {
            let a = if i < at { i } else { i - 1 };
            let b = if j < at { j } else { j - 1 };
            if i != at {
                assert(now[i] == before[a]);
            }
            if j != at {
                assert(now[j] == before[b]);
            }
        }
    }
}

} // verus!
