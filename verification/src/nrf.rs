//! Hash-grid network: tables, layers, and which pixels it paints.
//!
//! Features and weights are any kind of number, drawn from fixed pseudo-random streams.
//! What stands here is their layout, the hash that finds a grid cell's features, the
//! numbers behind the initial values, and the selection of the pixels that a ray-march
//! fills.

use vstd::prelude::*;

use crate::random::lcg_stream;
use crate::scalar::Scalar;

verus! {

/// Hash-grid levels.
pub const LEVELS: usize = 4;

/// Entries per level.
pub const ENTRIES: usize = 512;

/// Features per entry.
pub const FEATURES: usize = 2;

/// Input width of the network: the features of all levels.
pub const NRF_IN: usize = 8;

/// Hidden width of the network.
pub const NRF_H: usize = 32;

/// Output width of the network: density and colour.
pub const NRF_OUT: usize = 4;

/// Seed of the feature tables.
pub const TABLE_SEED: u64 = 0xdead_beef_cafe_babe;

/// Seed of the training samples.
pub const TRAINING_SEED: u64 = 0xfeed_face_cafe_babe;

/// Training steps.
pub const TRAINING_STEPS: usize = 8;

/// Samples per training step.
pub const TRAINING_SAMPLES: usize = 512;

/// The pattern of 0.5, from which on a pixel counts as opaque.
pub const OPAQUE: u32 = 0x3f00_0000;

/// `out` holds the first `n` numbers of the stream that starts at `seed`.
pub open spec fn is_stream(seed: u64, n: int, out: Seq<u32>) -> bool {
    &&& out.len() == n
    &&& forall|k: int|
        0 <= k < n ==> #[trigger] out[k] == crate::random::yielded(
            crate::random::state_after(seed, (k + 1) as nat),
        )
}

/// Multi-resolution hash grid.
pub struct HashGrid<S> {
    /// [level][entry][feature]
    pub tables: Vec<S>,
    /// cell size per level, coarsest first
    pub cell_sizes: [S; 4],
}

/// The entry of a grid cell: a linear hash of its coordinates and level.
pub open spec fn cell_entry(ix: int, iy: int, iz: int, level: int) -> int {
    (ix * 2654435761 + iy * 805459861 + iz * 3674653429 + level * 1234567891) % 512
}

/// Where the feature tables hold feature `feat` of a cell.
pub open spec fn table_index(ix: int, iy: int, iz: int, level: int, feat: int) -> int {
    (level * ENTRIES + cell_entry(ix, iy, iz, level)) * FEATURES + feat
}

/// The two's-complement pattern of a coordinate, as 64 bits.
fn widen(x: i32) -> (r: u64)
    ensures
        r == if x >= 0 {
            x as int
        } else {
            x + 0x1_0000_0000_0000_0000
        },
{
    let wide: i64 = x as i64;
    assert(wide as u64 == if wide >= 0 {
        wide as int
    } else {
        wide + 0x1_0000_0000_0000_0000
    }) by (bit_vector);
    #[verifier::truncate]
    (wide as u64)
}

impl<S: Copy> HashGrid<S> {
    /// The tables are complete.
    pub open spec fn wf(&self) -> bool {
        self.tables.len() == LEVELS * ENTRIES * FEATURES
    }

    /// The numbers behind the feature tables.
    pub fn table_numbers() -> (out: Vec<u32>)
        ensures
            is_stream(TABLE_SEED, LEVELS * ENTRIES * FEATURES, out@),
            is_stream(0xdead_beef_cafe_babe, 4096, out@),
    {
        lcg_stream(TABLE_SEED, LEVELS * ENTRIES * FEATURES)
    }

    /// The entry of a grid cell.
    pub fn cell_hash(ix: i32, iy: i32, iz: i32, level: usize) -> (e: usize)
        requires
            level < LEVELS,
        ensures
            e == cell_entry(ix as int, iy as int, iz as int, level as int),
            e < ENTRIES,
    {
        let a: u64 = widen(ix).wrapping_mul(2654435761);
        let b: u64 = widen(iy).wrapping_mul(805459861);
        let c: u64 = widen(iz).wrapping_mul(3674653429);
        let d: u64 = level as u64 * 1234567891;
        let h: u64 = a.wrapping_add(b).wrapping_add(c).wrapping_add(d);
        proof {
            lemma_term(ix as int, 2654435761, a as int);
            lemma_term(iy as int, 805459861, b as int);
            lemma_term(iz as int, 3674653429, c as int);
            lemma_hash_sum(
                a as int,
                b as int,
                c as int,
                d as int,
                h as int,
                ix as int * 2654435761,
                iy as int * 805459861,
                iz as int * 3674653429,
            );
        }
        (h % 512) as usize
    }

    /// Feature `feat` of a grid cell.
    pub fn lookup(&self, ix: i32, iy: i32, iz: i32, level: usize, feat: usize) -> (v: S)
        requires
            self.wf(),
            level < LEVELS,
            feat < FEATURES,
        ensures
            v == self.tables[table_index(ix as int, iy as int, iz as int, level as int, feat as int)],
    {
        let e: usize = Self::cell_hash(ix, iy, iz, level);
        self.tables[level * ENTRIES * FEATURES + e * FEATURES + feat]
    }

    /// Feature `feat` at the eight corners of a grid cell; bit 2 of a corner's number steps
    /// along x, bit 1 along y and bit 0 along z.
    pub fn corners(&self, ix: i32, iy: i32, iz: i32, level: usize, feat: usize) -> (v: [S; 8])
        requires
            self.wf(),
            level < LEVELS,
            feat < FEATURES,
            ix < i32::MAX,
            iy < i32::MAX,
            iz < i32::MAX,
        ensures
            forall|k: int|
                0 <= k < 8 ==> #[trigger] v[k] == self.tables[table_index(
                    ix + k / 4,
                    iy + (k / 2) % 2,
                    iz + k % 2,
                    level as int,
                    feat as int,
                )],
    {
        [
            self.lookup(ix, iy, iz, level, feat),
            self.lookup(ix, iy, iz + 1, level, feat),
            self.lookup(ix, iy + 1, iz, level, feat),
            self.lookup(ix, iy + 1, iz + 1, level, feat),
            self.lookup(ix + 1, iy, iz, level, feat),
            self.lookup(ix + 1, iy, iz + 1, level, feat),
            self.lookup(ix + 1, iy + 1, iz, level, feat),
            self.lookup(ix + 1, iy + 1, iz + 1, level, feat),
        ]
    }
}

/// A wrapped product agrees with the exact one modulo 2^64, and so modulo 512.
proof fn lemma_term(x: int, f: int, product: int)
    requires
        -0x8000_0000 <= x < 0x8000_0000,
        0 <= f < 0x1_0000_0000,
        product == ((if x >= 0 {
            x
        } else {
            x + 0x1_0000_0000_0000_0000
        }) * f) % 0x1_0000_0000_0000_0000,
    ensures
        product % 512 == (x * f) % 512,
{
    let m = 0x1_0000_0000_0000_0000int;
    let w = if x >= 0 {
        x
    } else {
        x + m
    };
    let q = (w * f) / m;
    vstd::arithmetic::div_mod::lemma_fundamental_div_mod(w * f, m);
    assert(w * f == x * f + if x >= 0 {
        0
    } else {
        m * f
    }) by (nonlinear_arith)
        requires
            w == if x >= 0 {
                x
            } else {
                x + m
            },
    ;
    let shift = if x >= 0 {
        0
    } else {
        f
    };
    assert(product == x * f + m * (shift - q)) by (nonlinear_arith)
        requires
            w * f == m * q + product,
            w * f == x * f + m * shift,
    ;
    let k = 0x80_0000_0000_0000int * (shift - q);
    assert(m * (shift - q) == 512 * k) by (nonlinear_arith)
        requires
            m == 0x1_0000_0000_0000_0000int,
            k == 0x80_0000_0000_0000int * (shift - q),
    ;
    vstd::arithmetic::div_mod::lemma_mod_multiples_vanish(k, x * f, 512);
}

/// A wrapped sum agrees with the exact one modulo 512.
proof fn lemma_hash_sum(a: int, b: int, c: int, d: int, h: int, x: int, y: int, z: int)
    requires
        a % 512 == x % 512,
        b % 512 == y % 512,
        c % 512 == z % 512,
        0 <= a < 0x1_0000_0000_0000_0000,
        0 <= b < 0x1_0000_0000_0000_0000,
        0 <= c < 0x1_0000_0000_0000_0000,
        0 <= d < 0x1_0000_0000_0000_0000,
        ({
            let m = 0x1_0000_0000_0000_0000int;
            h == (((a + b) % m + c) % m + d) % m
        }),
    ensures
        h % 512 == (x + y + z + d) % 512,
{
    let m = 0x1_0000_0000_0000_0000int;
    let first = (a + b) % m;
    let second = (first + c) % m;
    let carry = (if first == a + b {
        0int
    } else {
        1
    }) + (if second == first + c {
        0int
    } else {
        1
    }) + (if h == second + d {
        0int
    } else {
        1
    });
    lemma_one_carry(a + b, m);
    lemma_one_carry(first + c, m);
    lemma_one_carry(second + d, m);
    assert(h == a + b + c + d - m * carry);
    let k = (a / 512 - x / 512) + (b / 512 - y / 512) + (c / 512 - z / 512)
        - 0x80_0000_0000_0000int * carry;
    assert(h == 512 * k + (x + y + z + d));
    vstd::arithmetic::div_mod::lemma_mod_multiples_vanish(k, x + y + z + d, 512);
}

proof fn lemma_one_carry(s: int, m: int)
    requires
        0 < m,
        0 <= s < 2 * m,
    ensures
        s % m == s || s % m == s - m,
{
    if s < m {
        vstd::arithmetic::div_mod::lemma_small_mod(s as nat, m as nat);
    } else {
        vstd::arithmetic::div_mod::lemma_small_mod((s - m) as nat, m as nat);
        vstd::arithmetic::div_mod::lemma_mod_sub_multiples_vanish(s, m);
    }
}

/// Feed-forward network with two hidden layers, weights in row-major order.
pub struct NrfMlp<S> {
    /// NRF_H by NRF_IN
    pub w1: Vec<S>,
    pub b1: Vec<S>,
    /// NRF_H by NRF_H
    pub w2: Vec<S>,
    pub b2: Vec<S>,
    /// NRF_OUT by NRF_H
    pub w3: Vec<S>,
    pub b3: Vec<S>,
}

impl<S> NrfMlp<S> {
    /// Every layer has its weights.
    pub open spec fn wf(&self) -> bool {
        &&& self.w1.len() == NRF_H * NRF_IN
        &&& self.b1.len() == NRF_H
        &&& self.w2.len() == NRF_H * NRF_H
        &&& self.b2.len() == NRF_H
        &&& self.w3.len() == NRF_OUT * NRF_H
        &&& self.b3.len() == NRF_OUT
    }
}

/// The numbers behind the initial weights of a layer.
pub fn xavier_numbers(fan_in: usize, fan_out: usize, seed: u64) -> (out: Vec<u32>)
    requires
        fan_in * fan_out <= usize::MAX,
    ensures
        is_stream(seed, fan_in * fan_out, out@),
{
    lcg_stream(seed, fan_in * fan_out)
}

/// The numbers behind the training samples: three per sample, all steps in a row.
pub fn training_numbers() -> (out: Vec<u32>)
    ensures
        is_stream(TRAINING_SEED, TRAINING_STEPS * TRAINING_SAMPLES * 3, out@),
        is_stream(0xfeed_face_cafe_babe, 12288, out@),
{
    lcg_stream(TRAINING_SEED, TRAINING_STEPS * TRAINING_SAMPLES * 3)
}

/// A trained network: grid and weights.
pub struct NrfState<S> {
    pub grid: HashGrid<S>,
    pub mlp: NrfMlp<S>,
}

// ── Pixels ───────────────────────────────────────────────────────────────────

/// Pixel `i` of an RGBA buffer is not opaque: its alpha is below one half, or not a number.
pub open spec fn is_open(composite: Seq<Scalar>, i: int) -> bool {
    !(Scalar { bits: OPAQUE }).at_most(composite[4 * i + 3])
}

/// The pixels of an RGBA buffer that a ray-march fills: those that are not opaque.
pub fn open_pixels(composite: &[Scalar], width: usize, height: usize) -> (pixels: Vec<usize>)
    requires
        width * height * 4 <= composite.len(),
    ensures
        forall|a: int, b: int|
            0 <= a < b < pixels.len() ==> #[trigger] pixels[a] < #[trigger] pixels[b],
        forall|a: int|
            0 <= a < pixels.len() ==> (#[trigger] pixels[a]) < width * height && is_open(
                composite@,
                pixels[a] as int,
            ),
        forall|i: usize|
            i < width * height && is_open(composite@, i as int) ==> #[trigger] pixels@.contains(i),
        forall|i: usize|
            i < width * height ==> (#[trigger] pixels@.contains(i) <==> !(Scalar {
                bits: 0x3f00_0000,
            }).at_most(composite[4 * i + 3])),
{
    let mut pixels: Vec<usize> = Vec::new();
    proof {
        assert(0 <= width * height <= width * height * 4) by (nonlinear_arith)
            requires
                width >= 0,
                height >= 0,
        ;
    }
    let count: usize = width * height;
    let mut i: usize = 0;
    while i < count
        invariant
            i <= count,
            count * 4 <= composite.len(),
            forall|a: int, b: int|
                0 <= a < b < pixels.len() ==> #[trigger] pixels[a] < #[trigger] pixels[b],
            forall|a: int|
                0 <= a < pixels.len() ==> (#[trigger] pixels[a]) < i && is_open(
                    composite@,
                    pixels[a] as int,
                ),
            forall|j: usize|
                j < i && is_open(composite@, j as int) ==> #[trigger] pixels@.contains(j),
        decreases count - i,
    {
        let ghost before = pixels@;
        if !(Scalar { bits: OPAQUE }).is_at_most(composite[4 * i + 3]) {
            pixels.push(i);
            assert(pixels@[before.len() as int] == i);
        }
        assert forall|j: usize| j < i + 1 && is_open(
            composite@,
            j as int,
        ) implies #[trigger] pixels@.contains(j) by {
            if j < i {
                assert(before.contains(j));
                let a = choose|a: int| 0 <= a < before.len() && before[a] == j;
                assert(pixels@[a] == j);
            }
        }
        i = i + 1;
    }
    pixels
}

/// Writes `shaded` into the listed pixels of an RGBA buffer and leaves all others alone.
pub fn fill_pixels<S: Copy>(composite: &mut Vec<S>, pixels: &[usize], shaded: &[[S; 4]])
    requires
        pixels.len() == shaded.len(),
        forall|a: int, b: int| 0 <= a < b < pixels.len() ==> #[trigger] pixels[a] < #[trigger] pixels[b],
        forall|a: int| 0 <= a < pixels.len() ==> 4 * (#[trigger] pixels[a]) + 3 < old(composite).len(),
    ensures
        final(composite).len() == old(composite).len(),
        forall|a: int, c: int|
            0 <= a < pixels.len() && 0 <= c < 4 ==> final(composite)@[4 * (#[trigger] pixels[a]) + c]
                == #[trigger] shaded[a][c],
        forall|i: int|
            0 <= i < old(composite).len() && !pixels@.contains((i / 4) as usize)
                ==> #[trigger] final(composite)@[i] == old(composite)@[i],
{
    let ghost before = composite@;
    let mut k: usize = 0;
    while k < pixels.len()
        invariant
            k <= pixels.len(),
            pixels.len() == shaded.len(),
            composite.len() == before.len(),
            forall|a: int, b: int|
                0 <= a < b < pixels.len() ==> #[trigger] pixels[a] < #[trigger] pixels[b],
            forall|a: int| 0 <= a < pixels.len() ==> 4 * (#[trigger] pixels[a]) + 3 < before.len(),
            forall|a: int, c: int|
                0 <= a < k && 0 <= c < 4 ==> composite@[4 * (#[trigger] pixels[a]) + c]
                    == #[trigger] shaded[a][c],
            forall|i: int|
                0 <= i < before.len() && !pixels@.contains((i / 4) as usize)
                    ==> #[trigger] composite@[i] == before[i],
        decreases pixels.len() - k,
    {
        let ghost so_far = composite@;
        let base: usize = 4 * pixels[k];
        let pixel = shaded[k];
        composite.set(base, pixel[0]);
        composite.set(base + 1, pixel[1]);
        composite.set(base + 2, pixel[2]);
        composite.set(base + 3, pixel[3]);
        proof {
            assert(pixels@.contains(pixels@[k as int]));
            assert forall|a: int, c: int| 0 <= a < k + 1 && 0 <= c < 4 implies composite@[4 * (
            #[trigger] pixels[a]) + c] == #[trigger] shaded[a][c] by {
                if a < k {
                    assert(pixels[a] < pixels[k as int]);
                    assert(composite@[4 * pixels[a] + c] == so_far[4 * pixels[a] + c]);
                }
            }
            assert forall|i: int| 0 <= i < before.len() && !pixels@.contains(
                (i / 4) as usize,
            ) implies #[trigger] composite@[i] == before[i] by {
                if base <= i < base + 4 {
                    assert((i / 4) as usize == pixels@[k as int]);
                }
                assert(composite@[i] == so_far[i]);
            }
        }
        k = k + 1;
    }
}

/// Law: a pixel is filled if and only if its alpha is not at least one half: every alpha below
/// one half is open, zero among them, and none from one half on is.
pub proof fn law_open_pixels_are_below_one_half(composite: Seq<Scalar>, i: int)
    requires
        0 <= i,
        4 * i + 3 < composite.len(),
    ensures
        composite[4 * i + 3].less(Scalar { bits: 0x3f00_0000 }) ==> is_open(composite, i),
        (Scalar { bits: 0x3f00_0000 }).at_most(composite[4 * i + 3]) ==> !is_open(composite, i),
        composite[4 * i + 3].nan() ==> is_open(composite, i),
{
}

/// Law: whether a pixel is filled depends on its alpha alone.
pub proof fn law_open_pixels_go_by_alpha(
    composite: Seq<Scalar>,
    other: Seq<Scalar>,
    i: int,
    j: int,
)
    requires
        0 <= i,
        4 * i + 3 < composite.len(),
        0 <= j,
        4 * j + 3 < other.len(),
        composite[4 * i + 3] == other[4 * j + 3],
    ensures
        is_open(composite, i) == is_open(other, j),
{
}

/// Law: steps along the axes and up the levels move the entry of a cell by fixed distances,
/// whatever the cell, and the cell at the origin of the coarsest level has entry 0.
pub proof fn law_cell_entries_are_linear(ix: int, iy: int, iz: int, level: int)
    ensures
        0 <= cell_entry(ix, iy, iz, level) < 512,
        cell_entry(0, 0, 0, 0) == 0,
        cell_entry(ix + 1, iy, iz, level) == (cell_entry(ix, iy, iz, level) + 2654435761) % 512,
        cell_entry(ix, iy + 1, iz, level) == (cell_entry(ix, iy, iz, level) + 805459861) % 512,
        cell_entry(ix, iy, iz + 1, level) == (cell_entry(ix, iy, iz, level) + 3674653429) % 512,
        cell_entry(ix, iy, iz, level + 1) == (cell_entry(ix, iy, iz, level) + 1234567891) % 512,
{
    let s = ix * 2654435761 + iy * 805459861 + iz * 3674653429 + level * 1234567891;
    vstd::arithmetic::div_mod::lemma_add_mod_noop(s, 2654435761, 512);
    vstd::arithmetic::div_mod::lemma_add_mod_noop(s % 512, 2654435761, 512);
    vstd::arithmetic::div_mod::lemma_add_mod_noop(s, 805459861, 512);
    vstd::arithmetic::div_mod::lemma_add_mod_noop(s % 512, 805459861, 512);
    vstd::arithmetic::div_mod::lemma_add_mod_noop(s, 3674653429, 512);
    vstd::arithmetic::div_mod::lemma_add_mod_noop(s % 512, 3674653429, 512);
    vstd::arithmetic::div_mod::lemma_add_mod_noop(s, 1234567891, 512);
    vstd::arithmetic::div_mod::lemma_add_mod_noop(s % 512, 1234567891, 512);
    vstd::arithmetic::div_mod::lemma_mod_twice(s, 512);
}

/// Law: the tables hold two features of 512 entries of four levels, each in a place of its own,
/// the features of one entry side by side.
pub proof fn law_features_have_their_own_places(
    a: (int, int, int),
    level: int,
    feat: int,
    b: (int, int, int),
    other_level: int,
    other_feat: int,
)
    requires
        0 <= level < 4,
        0 <= feat < 2,
        0 <= other_level < 4,
        0 <= other_feat < 2,
    ensures
        0 <= table_index(a.0, a.1, a.2, level, feat) < 4096,
        table_index(a.0, a.1, a.2, level, 1) == table_index(a.0, a.1, a.2, level, 0) + 1,
        1024 * level <= table_index(a.0, a.1, a.2, level, feat) < 1024 * (level + 1),
        table_index(a.0, a.1, a.2, level, feat) == table_index(
            b.0,
            b.1,
            b.2,
            other_level,
            other_feat,
        ) <==> level == other_level && feat == other_feat && cell_entry(a.0, a.1, a.2, level)
            == cell_entry(b.0, b.1, b.2, other_level),
{
    law_cell_entries_are_linear(a.0, a.1, a.2, level);
    law_cell_entries_are_linear(b.0, b.1, b.2, other_level);
}

/// Law: a pixel that is filled takes the four values shaded for it, and one that is not keeps
/// its own: filling again with the same values changes nothing.
pub proof fn law_filling_is_idempotent<S>(
    before: Seq<S>,
    pixels: Seq<usize>,
    shaded: Seq<[S; 4]>,
    once: Seq<S>,
    twice: Seq<S>,
)
    requires
        before.len() <= usize::MAX,
        pixels.len() == shaded.len(),
        once.len() == before.len(),
        twice.len() == before.len(),
        forall|a: int, c: int|
            0 <= a < pixels.len() && 0 <= c < 4 ==> once[4 * (#[trigger] pixels[a]) + c]
                == #[trigger] shaded[a][c],
        forall|a: int, c: int|
            0 <= a < pixels.len() && 0 <= c < 4 ==> twice[4 * (#[trigger] pixels[a]) + c]
                == #[trigger] shaded[a][c],
        forall|i: int|
            0 <= i < before.len() && !pixels.contains((i / 4) as usize)
                ==> #[trigger] twice[i] == once[i],
    ensures
        twice == once,
{
    assert forall|i: int| 0 <= i < before.len() implies twice[i] == once[i] by {
        if pixels.contains((i / 4) as usize) {
            let a = choose|a: int| 0 <= a < pixels.len() && pixels[a] == (i / 4) as usize;
            let c = i % 4;
            assert(twice[4 * pixels[a] + c] == shaded[a][c]);
            assert(once[4 * pixels[a] + c] == shaded[a][c]);
        }
    }
    assert(twice =~= once);
}

/// Law: a stream starts with what the state after the seed yields, and goes on as the stream of
/// that state.
pub proof fn law_streams_continue(seed: u64, n: int, out: Seq<u32>)
    requires
        is_stream(seed, n, out),
        0 < n,
    ensures
        out[0] == crate::random::yielded(crate::random::next_state(seed)),
        is_stream(crate::random::next_state(seed), n - 1, out.skip(1)),
{
    crate::random::law_steps_add_up(seed, 0, 1);
    assert forall|k: int| 0 <= k < n - 1 implies #[trigger] out.skip(1)[k]
        == crate::random::yielded(
        crate::random::state_after(crate::random::next_state(seed), (k + 1) as nat),
    ) by {
        crate::random::law_steps_add_up(seed, 1, (k + 1) as nat);
        assert(out.skip(1)[k] == out[k + 1]);
        assert(1 + (k + 1) as nat == (k + 2) as nat);
    }
}

/// Law: a complete network takes the eight features of a point through two layers of 32 to density
/// and colour, and a complete grid holds 4096 features.
pub proof fn law_networks_have_their_shape<S: Copy>(mlp: &NrfMlp<S>, grid: &HashGrid<S>)
    ensures
        mlp.wf() <==> mlp.w1.len() == 256 && mlp.b1.len() == 32 && mlp.w2.len() == 1024
            && mlp.b2.len() == 32 && mlp.w3.len() == 128 && mlp.b3.len() == 4,
        grid.wf() <==> grid.tables.len() == 4096,
{
}

} // verus!
