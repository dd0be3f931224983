//! Little-endian integers in byte strings.

use vstd::prelude::*;

verus! {

/// The number that `b` spells, least significant byte first.
pub open spec fn le_value(b: Seq<u8>) -> nat
    decreases b.len(),
{
    if b.len() == 0 {
        0
    } else {
        b[0] as nat + 256 * le_value(b.skip(1))
    }
}

/// The number that `b` spells, most significant byte first.
pub open spec fn be_value(b: Seq<u8>) -> nat
    decreases b.len(),
{
    if b.len() == 0 {
        0
    } else {
        256 * be_value(b.drop_last()) + b.last() as nat
    }
}

/// Of two byte strings of one length that first differ at `k`, the one with the lower byte
/// there spells the lower number.
pub proof fn lemma_be_value_orders(a: Seq<u8>, b: Seq<u8>, k: int)
    requires
        a.len() == b.len(),
        0 <= k < a.len(),
        forall|j: int| 0 <= j < k ==> a[j] == b[j],
        a[k] < b[k],
    ensures
        be_value(a) < be_value(b),
    decreases a.len(),
{
    if k == a.len() - 1 {
        assert(a.drop_last() =~= b.drop_last());
    } else {
        lemma_be_value_orders(a.drop_last(), b.drop_last(), k);
    }
}

/// `n` written in `width` bytes, least significant byte first.
pub open spec fn le_bytes(n: nat, width: nat) -> Seq<u8>
    decreases width,
{
    if width == 0 {
        Seq::empty()
    } else {
        seq![(n % 256) as u8] + le_bytes(n / 256, (width - 1) as nat)
    }
}

/// How many values `width` bytes can spell.
pub open spec fn le_limit(width: nat) -> nat
    decreases width,
{
    if width == 0 {
        1
    } else {
        256 * le_limit((width - 1) as nat)
    }
}

/// The limits of the widths in use.
pub proof fn lemma_le_limits()
    ensures
        le_limit(0) == 1,
        le_limit(4) == 0x1_0000_0000,
        le_limit(8) == 0x1_0000_0000_0000_0000,
        le_limit(16) == 0x1_0000_0000_0000_0000_0000_0000_0000_0000,
{
    reveal_with_fuel(le_limit, 17);
}

/// A byte string spells a number below the limit of its length.
pub proof fn lemma_le_value_bound(b: Seq<u8>)
    ensures
        le_value(b) < le_limit(b.len()),
    decreases b.len(),
{
    if b.len() > 0 {
        lemma_le_value_bound(b.skip(1));
    }
}

/// Writing a number and reading it back gives the number.
pub proof fn lemma_le_roundtrip(n: nat, width: nat)
    requires
        n < le_limit(width),
    ensures
        le_bytes(n, width).len() == width,
        le_value(le_bytes(n, width)) == n,
    decreases width,
{
    if width > 0 {
        let w = (width - 1) as nat;
        lemma_le_roundtrip(n / 256, w);
        let b = le_bytes(n, width);
        assert(b.skip(1) =~= le_bytes(n / 256, w));
        assert(b[0] == (n % 256) as u8);
    }
}

/// One more byte at the most significant end adds its weight.
proof fn lemma_le_value_push(b: Seq<u8>, top: u8)
    ensures
        le_value(b.push(top)) == le_value(b) + le_limit(b.len()) * top as nat,
    decreases b.len(),
{
    let c = b.push(top);
    if b.len() == 0 {
        assert(c.skip(1) =~= Seq::<u8>::empty());
        assert(le_value(c.skip(1)) == 0);
        let w = le_limit(b.len());
        assert(w * top as nat == top as nat) by (nonlinear_arith)
            requires
                w == 1,
        ;
    } else {
        lemma_le_value_push(b.skip(1), top);
        assert(c.skip(1) =~= b.skip(1).push(top));
        let w = le_limit((b.len() - 1) as nat);
        assert(256 * (w * top as nat) == (256 * w) * top as nat) by (nonlinear_arith);
        assert(256 * (le_value(b.skip(1)) + w * top as nat) == 256 * le_value(b.skip(1)) + 256 * (w
            * top as nat)) by (nonlinear_arith);
    }
}

/// Reads the little-endian number in the `width` bytes of `b` from `at` on.
pub fn read_le(b: &[u8], at: usize, width: usize) -> (value: u128)
    requires
        at + width <= b.len(),
        width <= 16,
    ensures
        value == le_value(b@.subrange(at as int, at + width)),
        value < le_limit(width as nat),
{
    let mut value: u128 = 0;
    let mut scale: u128 = 1;
    let mut k: usize = 0;
    proof {
        lemma_le_limits();
        assert(b@.subrange(at as int, at as int) =~= Seq::<u8>::empty());
    }
    while k < width
        invariant
            k <= width <= 16,
            at + width <= b.len(),
            value == le_value(b@.subrange(at as int, at + k)),
            value < le_limit(k as nat),
            k < 16 ==> scale == le_limit(k as nat),
            le_limit(16) == 0x1_0000_0000_0000_0000_0000_0000_0000_0000,
        decreases width - k,
    {
        let byte: u8 = b[at + k];
        proof {
            let head = b@.subrange(at as int, at + k);
            lemma_le_value_push(head, byte);
            assert(head.push(byte) =~= b@.subrange(at as int, at + k + 1));
            lemma_le_value_bound(b@.subrange(at as int, at + k + 1));
            lemma_le_limit_grows((k + 1) as nat, 16);
            assert(scale * byte == le_limit(k as nat) * byte as nat);
        }
        value = value + scale * (byte as u128);
        k = k + 1;
        if k < 16 {
            proof {
                lemma_le_limit_grows((k + 1) as nat, 16);
                assert(le_limit((k + 1) as nat) == 256 * le_limit(k as nat));
            }
            scale = scale * 256;
        }
    }
    value
}

proof fn lemma_le_limit_grows(a: nat, b: nat)
    requires
        a <= b,
    ensures
        0 < le_limit(a) <= le_limit(b),
    decreases b,
{
    if a < b {
        lemma_le_limit_grows(a, (b - 1) as nat);
    } else if a > 0 {
        lemma_le_limit_grows((a - 1) as nat, (b - 1) as nat);
    }
}

/// Appends the four bytes of `word`.
pub fn push_word(out: &mut Vec<u8>, word: u32)
    ensures
        final(out)@ == old(out)@ + le_bytes(word as nat, 4),
{
    let ghost before = out@;
    out.push((word % 256) as u8);
    out.push((word / 256 % 256) as u8);
    out.push((word / 65536 % 256) as u8);
    out.push((word / 16777216) as u8);
    proof {
        let n = word as nat;
        reveal_with_fuel(le_bytes, 5);
        assert(n / 256 / 256 == n / 65536);
        assert(n / 256 / 256 / 256 == n / 16777216);
        assert(out@ =~= before + le_bytes(n, 4));
    }
}

/// Tests whether `pattern` stands in `b` from `at` on.
pub fn matches_at(b: &[u8], at: usize, pattern: &[u8]) -> (r: bool)
    requires
        at <= b.len(),
    ensures
        r == (at + pattern.len() <= b.len() && b@.subrange(at as int, at + pattern.len())
            == pattern@),
{
    if pattern.len() > b.len() - at {
        return false;
    }
    let mut k: usize = 0;
    while k < pattern.len()
        invariant
            k <= pattern.len(),
            at + pattern.len() <= b.len(),
            forall|a: int| 0 <= a < k ==> b[at + a] == #[trigger] pattern[a],
        decreases pattern.len() - k,
    {
        if b[at + k] != pattern[k] {
            assert(b@.subrange(at as int, at + pattern.len())[k as int] != pattern@[k as int]);
            return false;
        }
        k = k + 1;
    }
    assert(b@.subrange(at as int, at + pattern.len()) =~= pattern@);
    true
}

/// Law: four bytes spell a word, each byte counting 256 times as much as the one before it.
pub proof fn law_four_bytes_make_a_word(b: Seq<u8>)
    requires
        b.len() == 4,
    ensures
        le_value(b) == b[0] + 256 * b[1] + 65536 * b[2] + 16777216 * b[3],
{
    reveal_with_fuel(le_value, 5);
}

/// Law: a number is written so that the byte at `k` counts its multiples of 256 to the power of
/// `k`: the first byte is what is left of it by 256, and the rest writes the quotient.
pub proof fn law_bytes_go_up_in_weight(n: nat, width: nat)
    requires
        0 < width,
    ensures
        le_bytes(n, width)[0] == n % 256,
        le_bytes(n, width).skip(1) == le_bytes(n / 256, (width - 1) as nat),
{
    assert(le_bytes(n, width).skip(1) =~= le_bytes(n / 256, (width - 1) as nat));
}

} // verus!
