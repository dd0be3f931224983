//! The linear congruential generator behind every pseudo-random sequence of the crate.
//!
//! Seeds are fixed, so every run draws the same numbers.

use vstd::prelude::*;

verus! {

/// Multiplier of the generator.
pub const LCG_MUL: u64 = 6_364_136_223_846_793_005;

/// Increment of the generator.
pub const LCG_ADD: u64 = 1_442_695_040_888_963_407;

/// The state after `state`, modulo 2^64.
pub open spec fn next_state(state: u64) -> u64 {
    ((state * LCG_MUL + LCG_ADD) % 0x1_0000_0000_0000_0000) as u64
}

/// The state after `k` steps from `seed`.
pub open spec fn state_after(seed: u64, k: nat) -> u64
    decreases k,
{
    if k == 0 {
        seed
    } else {
        next_state(state_after(seed, (k - 1) as nat))
    }
}

/// What a state yields: its upper 31 bits.
pub open spec fn yielded(state: u64) -> u32 {
    (state / 0x2_0000_0000) as u32
}

/// Advances the generator by one step.
pub fn lcg_next(state: u64) -> (r: u64)
    ensures
        r == next_state(state),
{
    let product: u64 = state.wrapping_mul(LCG_MUL);
    proof {
        let p = state * LCG_MUL;
        let m = 0x1_0000_0000_0000_0000int;
        assert(product == p % m);
        vstd::arithmetic::div_mod::lemma_add_mod_noop(p, LCG_ADD as int, m);
        vstd::arithmetic::div_mod::lemma_add_mod_noop(p % m, LCG_ADD as int, m);
        vstd::arithmetic::div_mod::lemma_mod_twice(p, m);
    }
    product.wrapping_add(LCG_ADD)
}

/// The first `n` numbers that the generator yields from `seed`.
pub fn lcg_stream(seed: u64, n: usize) -> (out: Vec<u32>)
    ensures
        out.len() == n,
        forall|k: int|
            0 <= k < n ==> #[trigger] out[k] == yielded(state_after(seed, (k + 1) as nat)),
{
    let mut out: Vec<u32> = Vec::with_capacity(n);
    let mut state: u64 = seed;
    let mut k: usize = 0;
    while k < n
        invariant
            k <= n,
            out.len() == k,
            state == state_after(seed, k as nat),
            forall|i: int|
                0 <= i < k ==> #[trigger] out[i] == yielded(state_after(seed, (i + 1) as nat)),
        decreases n - k,
    {
        state = lcg_next(state);
        assert(state >> 33 == state / 0x2_0000_0000) by (bit_vector);
        out.push((state >> 33) as u32);
        k = k + 1;
    }
    out
}

/// Law: neighbouring states step to states one multiplier apart, all modulo 2^64, and the state
/// zero steps to the increment.
pub proof fn law_steps_are_linear(state: u64)
    requires
        state < u64::MAX,
    ensures
        next_state(0) == 1_442_695_040_888_963_407,
        next_state((state + 1) as u64) == (next_state(state) + 6_364_136_223_846_793_005)
            % 0x1_0000_0000_0000_0000,
{
    let m = 0x1_0000_0000_0000_0000int;
    let p = state * LCG_MUL + LCG_ADD;
    assert((state + 1) * LCG_MUL == state * LCG_MUL + LCG_MUL) by (nonlinear_arith);
    vstd::arithmetic::div_mod::lemma_add_mod_noop(p, LCG_MUL as int, m);
    vstd::arithmetic::div_mod::lemma_add_mod_noop(p % m, LCG_MUL as int, m);
    vstd::arithmetic::div_mod::lemma_mod_twice(p, m);
}

/// Law: taking steps one after the other is taking them together, and no step is none.
pub proof fn law_steps_add_up(seed: u64, a: nat, b: nat)
    ensures
        state_after(seed, 0) == seed,
        state_after(seed, 1) == next_state(seed),
        state_after(seed, a + b) == state_after(state_after(seed, a), b),
    decreases b,
{
    reveal_with_fuel(state_after, 2);
    if b > 0 {
        law_steps_add_up(seed, a, (b - 1) as nat);
        assert((a + b - 1) as nat == a + (b - 1) as nat);
    }
}

/// Law: a state yields the upper 31 of its 64 bits.
pub proof fn law_upper_bits_are_yielded(state: u64)
    ensures
        yielded(state) < 0x8000_0000,
        yielded(state) * 0x2_0000_0000 <= state < (yielded(state) + 1) * 0x2_0000_0000,
{
}

} // verus!
