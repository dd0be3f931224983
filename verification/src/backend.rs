//! Backend interface, and the CPU backend that the others are measured against.

use std::collections::HashMap;
use vstd::prelude::*;

use crate::epoch::EpochState;
use crate::scalar::{largest, Scalar, INFINITY};

verus! {

broadcast use vstd::std_specs::hash::group_hash_axioms;

pub type BufferId = u64;

pub type ShaderId = u64;

pub type PipelineId = u64;

pub type TextureId = u64;

#[derive(Clone, Copy, Debug, PartialEq, Eq, Structural)]
pub enum BufferUsage {
    Compute,
    Vertex,
    Index,
    Uniform,
    Readback,
}

#[derive(Clone, Copy, Debug, PartialEq, Eq, Structural)]
pub enum ShaderStage {
    Compute,
    Vertex,
    Fragment,
}

#[derive(Clone, Copy, Debug, PartialEq, Eq, Structural)]
pub enum NumericDomain {
    Fp32,
    Fp64,
    FixedQ32,
    Goldilocks,
}

#[derive(Clone, Copy, Debug)]
pub struct Binding {
    pub buffer: BufferId,
    pub offset: usize,
    pub index: u32,
}

#[derive(Clone, Copy, Debug)]
pub struct PipelineShaders {
    pub vertex: Option<ShaderId>,
    pub fragment: Option<ShaderId>,
    pub compute: Option<ShaderId>,
}

#[derive(Clone, Copy, Debug)]
pub struct PipelineLayout {
    pub bind_groups: u32,
}

/// GPU backend interface.
pub trait RenderBackend: Send + Sync {
    fn buffer_create(&mut self, size: usize, usage: BufferUsage) -> BufferId;

    fn buffer_write(&mut self, id: BufferId, data: &[u8], offset: usize);

    fn buffer_read(&self, id: BufferId, offset: usize, size: usize) -> Vec<u8>;

    fn shader_compile(&mut self, source: &str, stage: ShaderStage) -> ShaderId;

    fn compute_dispatch(&mut self, shader: ShaderId, bindings: &[Binding], workgroups: [u32; 3]);

    fn pipeline_create(&mut self, shaders: &PipelineShaders, layout: &PipelineLayout) -> PipelineId;

    fn draw_indirect(
        &mut self,
        pipeline: PipelineId,
        bindings: &[Binding],
        indirect_buffer: BufferId,
        count: u32,
    );

    fn surface_acquire(&mut self) -> TextureId;

    fn surface_present(&mut self, texture: TextureId);

    fn roll(&mut self, tensor: BufferId, shift: i32, axis: u32) -> BufferId;

    fn shifted_inner(&mut self, h: BufferId, c: BufferId, shifts: &[i32]) -> BufferId;

    fn shifted_wedge(&mut self, h: BufferId, c: BufferId, shifts: &[i32]) -> BufferId;

    fn clifford_block(
        &mut self,
        h: BufferId,
        c: BufferId,
        shifts: &[i32],
        gate: BufferId,
    ) -> BufferId;

    fn deterministic_mode(&self) -> bool;

    fn numeric_domain(&self) -> NumericDomain;
}

// ── Contents of buffers ──────────────────────────────────────────────────────

/// `content` with `data` written at `offset`, as far as it reaches.
pub open spec fn overwritten(content: Seq<u8>, data: Seq<u8>, offset: int) -> Seq<u8> {
    Seq::new(
        content.len(),
        |i: int|
            if offset <= i < offset + data.len() {
                data[i - offset]
            } else {
                content[i]
            },
    )
}

/// The `size` bytes of `content` from `offset` on, as far as it reaches.
pub open spec fn clipped(content: Seq<u8>, offset: int, size: int) -> Seq<u8> {
    let start = if offset < content.len() {
        offset
    } else {
        content.len() as int
    };
    let end = if offset + size < content.len() {
        offset + size
    } else {
        content.len() as int
    };
    content.subrange(start, end)
}

/// The number of whole 4-byte words of `content`.
pub open spec fn word_count(content: Seq<u8>) -> int {
    content.len() as int / 4
}

/// How far words move to the right when they are rolled by `shift`.
pub open spec fn roll_distance(words: int, shift: int) -> int {
    shift % words
}

/// The whole words of `content`, moved right cyclically by `distance`.
pub open spec fn rotated(content: Seq<u8>, distance: int) -> Seq<u8> {
    let n = word_count(content);
    Seq::new(
        (4 * n) as nat,
        |i: int|
            {
                let from = if i / 4 < distance {
                    i / 4 - distance + n
                } else {
                    i / 4 - distance
                };
                content[4 * from + i % 4]
            },
    )
}

// ── Reference backend ────────────────────────────────────────────────────────

/// Single-threaded reference backend: slow, but authoritative for determinism checks.
pub struct CpuReferenceBackend {
    next_id: u64,
    buffers: HashMap<BufferId, Vec<u8>>,
}

impl CpuReferenceBackend {
    /// The id that is given out next.
    pub closed spec fn next(&self) -> u64 {
        self.next_id
    }

    /// The contents of all buffers.
    pub closed spec fn contents(&self) -> Map<BufferId, Seq<u8>> {
        Map::new(
            |id: BufferId| self.buffers@.dom().contains(id),
            |id: BufferId| self.buffers@[id]@,
        )
    }

    /// Ids have been given out in order.
    pub open spec fn wf(&self) -> bool {
        forall|id: BufferId| #[trigger] self.contents().dom().contains(id) ==> id < self.next()
    }

    /// The id that is given out after `id`.
    pub open spec fn after(id: u64) -> u64 {
        if id == u64::MAX {
            0
        } else {
            (id + 1) as u64
        }
    }

    /// An empty backend.
    pub fn new() -> (b: Self)
        ensures
            b.wf(),
            b.next() == 1,
            b.contents() == Map::<BufferId, Seq<u8>>::empty(),
    {
        let b = CpuReferenceBackend { next_id: 1, buffers: HashMap::new() };
        assert(b.contents() =~= Map::<BufferId, Seq<u8>>::empty());
        b
    }

    fn alloc_id(&mut self) -> (id: u64)
        ensures
            id == old(self).next(),
            final(self).next() == Self::after(id),
            final(self).contents() == old(self).contents(),
    {
        let id: u64 = self.next_id;
        self.next_id = id.wrapping_add(1);
        assert(self.contents() =~= old(self).contents());
        id
    }

    fn store(&mut self, id: BufferId, content: Vec<u8>)
        ensures
            final(self).next() == old(self).next(),
            final(self).contents() == old(self).contents().insert(id, content@),
    {
        self.buffers.insert(id, content);
        assert(self.contents() =~= old(self).contents().insert(id, content@));
    }

    /// Compares the clusters of two epochs: true if and only if every particle has the
    /// same cluster in both at all four scales.
    pub fn verify_topology<S>(&self, reference: &EpochState<S>, other: &EpochState<S>) -> (r: bool)
        ensures
            r == (reference.cluster_ids@ == other.cluster_ids@),
    {
        let a = &reference.cluster_ids;
        let b = &other.cluster_ids;
        if a.len() != b.len() {
            return false;
        }
        let mut p: usize = 0;
        while p < a.len()
            invariant
                p <= a.len(),
                a.len() == b.len(),
                a@ == reference.cluster_ids@,
                b@ == other.cluster_ids@,
                forall|q: int| 0 <= q < p ==> #[trigger] a@[q] == b@[q],
            decreases a.len() - p,
        {
            let x: [u32; 4] = a[p];
            let y: [u32; 4] = b[p];
            if x[0] != y[0] || x[1] != y[1] || x[2] != y[2] || x[3] != y[3] {
                assert(a@[p as int] != b@[p as int]);
                return false;
            }
            assert(a@[p as int] =~= b@[p as int]);
            p = p + 1;
        }
        assert(a@ =~= b@);
        true
    }
}

impl CpuReferenceBackend {
    /// Compares the positions of two epochs: whether no particle deviates by more than
    /// `epsilon`, and the largest deviation. `deviations` holds the distance between the two
    /// positions of each particle. Epochs of different size deviate infinitely.
    pub fn verify_positions<S>(
        &self,
        reference: &EpochState<S>,
        other: &EpochState<S>,
        deviations: &[Scalar],
        epsilon: Scalar,
    ) -> (r: (bool, Scalar))
        requires
            reference.positions.len() / 3 == other.positions.len() / 3 ==> deviations.len()
                == reference.positions.len() / 3,
        ensures
            reference.positions.len() / 3 != other.positions.len() / 3 ==> !r.0 && r.1.bits
                == INFINITY,
            reference.positions.len() / 3 == other.positions.len() / 3 ==> {
                &&& crate::scalar::is_largest(deviations@, r.1)
                &&& r.0 == r.1.at_most(epsilon)
            },
    {
        if reference.positions.len() / 3 != other.positions.len() / 3 {
            return (false, Scalar { bits: INFINITY });
        }
        let max_dev = largest(deviations);
        (max_dev.is_at_most(epsilon), max_dev)
    }
}

impl Default for CpuReferenceBackend {
    fn default() -> (b: Self)
        ensures
            b.wf(),
            b.next() == 1,
            b.contents() == Map::<BufferId, Seq<u8>>::empty(),
    {
        CpuReferenceBackend::new()
    }
}

/// `data` clipped to the part of a buffer.
fn copy_range(content: &Vec<u8>, start: usize, end: usize) -> (out: Vec<u8>)
    requires
        start <= end <= content.len(),
    ensures
        out@ == content@.subrange(start as int, end as int),
{
    let mut out: Vec<u8> = Vec::with_capacity(end - start);
    let mut i: usize = start;
    while i < end
        invariant
            start <= i <= end <= content.len(),
            out@ == content@.subrange(start as int, i as int),
        decreases end - i,
    {
        out.push(content[i]);
        i = i + 1;
        assert(out@ =~= content@.subrange(start as int, i as int));
    }
    out
}

fn overwrite(content: &mut Vec<u8>, data: &[u8], offset: usize)
    ensures
        final(content)@ == overwritten(old(content)@, data@, offset as int),
{
    let ghost before = content@;
    if offset < content.len() {
        let room: usize = content.len() - offset;
        let count: usize = if data.len() < room {
            data.len()
        } else {
            room
        };
        let mut k: usize = 0;
        while k < count
            invariant
                k <= count <= data.len(),
                content.len() == before.len(),
                offset + count <= content.len(),
                forall|i: int|
                    0 <= i < content.len() ==> #[trigger] content@[i] == if offset <= i < offset + k {
                        data@[i - offset]
                    } else {
                        before[i]
                    },
            decreases count - k,
        {
            content.set(offset + k, data[k]);
            k = k + 1;
        }
    }
    assert(content@ =~= overwritten(before, data@, offset as int));
}

fn rotate_words(content: &Vec<u8>, words: usize, distance: usize) -> (out: Vec<u8>)
    requires
        words == word_count(content@),
        distance <= words,
    ensures
        out@ == rotated(content@, distance as int),
{
    assert(4 * words <= content.len());
    let mut out: Vec<u8> = Vec::with_capacity(4 * words);
    let mut w: usize = 0;
    while w < words
        invariant
            w <= words,
            words == word_count(content@),
            4 * words <= content.len(),
            distance <= words,
            out.len() == 4 * w,
            forall|i: int| 0 <= i < 4 * w ==> #[trigger] out@[i] == rotated(content@, distance as int)[i],
        decreases words - w,
    {
        let from: usize = if w < distance {
            words - distance + w
        } else {
            w - distance
        };
        let ghost all = rotated(content@, distance as int);
        proof {
            assert(all[4 * w as int] == content@[4 * from as int]);
            assert(all[4 * w + 1] == content@[4 * from + 1]);
            assert(all[4 * w + 2] == content@[4 * from + 2]);
            assert(all[4 * w + 3] == content@[4 * from + 3]);
        }
        out.push(content[4 * from]);
        out.push(content[4 * from + 1]);
        out.push(content[4 * from + 2]);
        out.push(content[4 * from + 3]);
        w = w + 1;
    }
    assert(out@ =~= rotated(content@, distance as int));
    out
}

impl RenderBackend for CpuReferenceBackend {
    /// Makes a buffer of `size` zero bytes.
    fn buffer_create(&mut self, size: usize, usage: BufferUsage) -> (id: BufferId)
        ensures
            id == old(self).next(),
            final(self).next() == Self::after(id),
            final(self).contents() == old(self).contents().insert(id, Seq::new(size as nat, |i: int| 0u8)),
            old(self).wf() && id < u64::MAX ==> final(self).wf() && !old(self).contents().dom().contains(id),
    {
        let id = self.alloc_id();
        let content: Vec<u8> = vec![0u8; size];
        assert(content@ =~= Seq::new(size as nat, |i: int| 0u8));
        self.store(id, content);
        id
    }

    /// Overwrites the bytes of a buffer from `offset` on; what does not fit is dropped, and
    /// an unknown buffer is left alone.
    fn buffer_write(&mut self, id: BufferId, data: &[u8], offset: usize)
        ensures
            final(self).next() == old(self).next(),
            final(self).contents() == if old(self).contents().dom().contains(id) {
                old(self).contents().insert(
                    id,
                    overwritten(old(self).contents()[id], data@, offset as int),
                )
            } else {
                old(self).contents()
            },
    {
        let ghost before = self.contents();
        match self.buffers.remove(&id) {
            Some(content) => {
                let mut content = content;
                overwrite(&mut content, data, offset);
                self.buffers.insert(id, content);
                proof {
                    let after = before.insert(id, content@);
                    assert(content@ == overwritten(before[id], data@, offset as int));
                    assert(self.contents() =~= after);
                }
            },
            None => {
                assert(self.contents() =~= before);
            },
        }
    }

    /// The `size` bytes of a buffer from `offset` on, as far as it reaches; nothing of an
    /// unknown buffer.
    fn buffer_read(&self, id: BufferId, offset: usize, size: usize) -> (out: Vec<u8>)
        ensures
            out@ == if self.contents().dom().contains(id) {
                clipped(self.contents()[id], offset as int, size as int)
            } else {
                Seq::empty()
            },
    {
        match self.buffers.get(&id) {
            Some(content) => {
                let len: usize = content.len();
                let start: usize = if offset < len {
                    offset
                } else {
                    len
                };
                let end: usize = if size < len - start {
                    start + size
                } else {
                    len
                };
                copy_range(content, start, end)
            },
            None => Vec::new(),
        }
    }

    fn shader_compile(&mut self, source: &str, stage: ShaderStage) -> (id: ShaderId)
        ensures
            id == old(self).next(),
            final(self).next() == Self::after(id),
            final(self).contents() == old(self).contents(),
    {
        self.alloc_id()
    }

    /// Does nothing: the reference computes without dispatches.
    fn compute_dispatch(&mut self, shader: ShaderId, bindings: &[Binding], workgroups: [u32; 3])
        ensures
            *final(self) == *old(self),
    {
    }

    fn pipeline_create(&mut self, shaders: &PipelineShaders, layout: &PipelineLayout) -> (id: PipelineId)
        ensures
            id == old(self).next(),
            final(self).next() == Self::after(id),
            final(self).contents() == old(self).contents(),
    {
        self.alloc_id()
    }

    fn draw_indirect(
        &mut self,
        pipeline: PipelineId,
        bindings: &[Binding],
        indirect_buffer: BufferId,
        count: u32,
    )
        ensures
            *final(self) == *old(self),
    {
    }

    fn surface_acquire(&mut self) -> (id: TextureId)
        ensures
            id == old(self).next(),
            final(self).next() == Self::after(id),
            final(self).contents() == old(self).contents(),
    {
        self.alloc_id()
    }

    fn surface_present(&mut self, texture: TextureId)
        ensures
            *final(self) == *old(self),
    {
    }

    /// Cyclic shift of the words of `tensor` into a new buffer. Without words the new id has
    /// no buffer. One axis only.
    fn roll(&mut self, tensor: BufferId, shift: i32, axis: u32) -> (id: BufferId)
        ensures
            id == old(self).next(),
            final(self).next() == Self::after(id),
            ({
                let known = old(self).contents().dom().contains(tensor);
                let content = old(self).contents()[tensor];
                let words = word_count(content);
                final(self).contents() == if known && words > 0 {
                    old(self).contents().insert(
                        id,
                        rotated(content, roll_distance(words, shift as int)),
                    )
                } else {
                    old(self).contents()
                }
            }),
    {
        let content: Vec<u8> = self.buffer_read(tensor, 0, usize::MAX);
        let ghost known = self.contents().dom().contains(tensor);
        proof {
            if known {
                let c = self.contents()[tensor];
                assert(clipped(c, 0, usize::MAX as int) =~= c) by {
                    assert(self.buffers@[tensor].len() <= usize::MAX);
                }
            }
        }
        let words: usize = content.len() / 4;
        if words == 0 {
            return self.alloc_id();
        }
        let distance: usize = distance_of(words, shift);
        let out = rotate_words(&content, words, distance);
        let id = self.alloc_id();
        self.store(id, out);
        id
    }

    fn shifted_inner(&mut self, h: BufferId, c: BufferId, shifts: &[i32]) -> (id: BufferId)
        ensures
            id == old(self).next(),
            final(self).next() == Self::after(id),
            final(self).contents() == old(self).contents(),
    {
        self.alloc_id()
    }

    fn shifted_wedge(&mut self, h: BufferId, c: BufferId, shifts: &[i32]) -> (id: BufferId)
        ensures
            id == old(self).next(),
            final(self).next() == Self::after(id),
            final(self).contents() == old(self).contents(),
    {
        self.alloc_id()
    }

    fn clifford_block(&mut self, h: BufferId, c: BufferId, shifts: &[i32], gate: BufferId) -> (id: BufferId)
        ensures
            id == old(self).next(),
            final(self).next() == Self::after(id),
            final(self).contents() == old(self).contents(),
    {
        self.alloc_id()
    }

    fn deterministic_mode(&self) -> (r: bool)
        ensures
            r,
    {
        true
    }

    fn numeric_domain(&self) -> (r: NumericDomain)
        ensures
            r == NumericDomain::Fp64,
    {
        NumericDomain::Fp64
    }
}

fn distance_of(words: usize, shift: i32) -> (distance: usize)
    requires
        words > 0,
    ensures
        distance == roll_distance(words as int, shift as int),
        distance < words,
{
    if shift >= 0 {
        shift as usize % words
    } else {
        let back: usize = (-(shift as i64)) as usize % words;
        proof {
            lemma_opposite(-(shift as int), words as int);
        }
        if back == 0 {
            0
        } else {
            words - back
        }
    }
}

/// Law: reading where one has written gives back what was written, if it fitted.
pub proof fn law_read_after_write(content: Seq<u8>, data: Seq<u8>, offset: int)
    requires
        0 <= offset,
        offset + data.len() <= content.len(),
    ensures
        clipped(overwritten(content, data, offset), offset, data.len() as int) == data,
{
    assert(clipped(overwritten(content, data, offset), offset, data.len() as int) =~= data);
}

/// Law: a write changes no byte outside its range, nor the length.
pub proof fn law_write_keeps_the_rest(content: Seq<u8>, data: Seq<u8>, offset: int, i: int)
    requires
        0 <= i < content.len(),
        i < offset || offset + data.len() <= i,
    ensures
        overwritten(content, data, offset).len() == content.len(),
        overwritten(content, data, offset)[i] == content[i],
{
}

/// Law: rolling by `shift` and then by `-shift` gives back the words of the buffer.
pub proof fn law_roll_back(content: Seq<u8>, shift: int)
    requires
        0 < word_count(content),
    ensures
        ({
            let n = word_count(content);
            let there = rotated(content, roll_distance(n, shift));
            &&& word_count(there) == n
            &&& rotated(there, roll_distance(n, -shift)) == content.take(4 * n)
        }),
{
    let n = word_count(content);
    let a = roll_distance(n, shift);
    let b = roll_distance(n, -shift);
    lemma_opposite(shift, n);
    let there = rotated(content, a);
    assert(word_count(there) == n);
    let back = rotated(there, b);
    assert forall|i: int| 0 <= i < 4 * n implies #[trigger] back[i] == content[i] by {
        let w = i / 4;
        let m = if w < b {
            w - b + n
        } else {
            w - b
        };
        assert(back[i] == there[4 * m + i % 4]);
        assert((4 * m + i % 4) / 4 == m && (4 * m + i % 4) % 4 == i % 4);
    }
    assert(back =~= content.take(4 * n));
}

/// Opposite shifts move words by distances that cancel out.
proof fn lemma_opposite(shift: int, n: int)
    requires
        n > 0,
    ensures
        0 <= shift % n < n,
        (-shift) % n == if shift % n == 0 {
            0
        } else {
            n - shift % n
        },
{
    let q = shift / n;
    let r = shift % n;
    vstd::arithmetic::div_mod::lemma_fundamental_div_mod(shift, n);
    if r == 0 {
        assert(-shift == n * (-q) + 0) by (nonlinear_arith)
            requires
                shift == n * q + r,
                r == 0,
        ;
        vstd::arithmetic::div_mod::lemma_fundamental_div_mod_converse(-shift, n, -q, 0);
    } else {
        assert(-shift == n * (-q - 1) + (n - r)) by (nonlinear_arith)
            requires
                shift == n * q + r,
        ;
        vstd::arithmetic::div_mod::lemma_fundamental_div_mod_converse(-shift, n, -q - 1, n - r);
    }
}

/// Law: rolling by `shift` moves every word `shift` places to the right, past the end and on
/// from the start.
pub proof fn law_roll_moves_words_right(content: Seq<u8>, shift: int, w: int, c: int)
    requires
        0 <= w < word_count(content),
        0 <= c < 4,
    ensures
        ({
            let n = content.len() as int / 4;
            rotated(content, roll_distance(n, shift))[4 * ((w + shift) % n) + c] == content[4 * w
                + c]
        }),
        rotated(content, roll_distance(content.len() as int / 4, shift)).len() == content.len() / 4
            * 4,
{
    let n = content.len() as int / 4;
    let d = shift % n;
    let q = shift / n;
    vstd::arithmetic::div_mod::lemma_fundamental_div_mod(shift, n);
    vstd::arithmetic::div_mod::lemma_mod_bound(shift, n);
    if w + d < n {
        assert(w + shift == n * q + (w + d));
        vstd::arithmetic::div_mod::lemma_fundamental_div_mod_converse(w + shift, n, q, w + d);
    } else {
        assert(w + shift == n * (q + 1) + (w + d - n)) by (nonlinear_arith)
            requires
                shift == n * q + d,
        ;
        vstd::arithmetic::div_mod::lemma_fundamental_div_mod_converse(
            w + shift,
            n,
            q + 1,
            w + d - n,
        );
    }
    let i = 4 * ((w + shift) % n) + c;
    assert(i / 4 == (w + shift) % n && i % 4 == c);
}

/// Law: a read gives the bytes of the buffer from its offset on, as many as asked for where the
/// buffer has them, and those that it has otherwise.
pub proof fn law_reads_are_clipped(content: Seq<u8>, offset: int, size: int, i: int)
    requires
        0 <= offset,
        0 <= size,
    ensures
        0 <= i < size && offset + i < content.len() ==> i < clipped(content, offset, size).len()
            && clipped(content, offset, size)[i] == content[offset + i],
        size <= i || content.len() <= offset + i ==> clipped(content, offset, size).len() <= i
            || i < 0,
{
}

/// Law: what is written stands in the buffer from the offset on, as far as the buffer reaches.
pub proof fn law_writes_land(content: Seq<u8>, data: Seq<u8>, offset: int, i: int)
    requires
        0 <= offset,
        0 <= i < data.len(),
        offset + i < content.len(),
    ensures
        overwritten(content, data, offset)[offset + i] == data[i],
{
}

/// Law: ids are given out one after the other, without an end.
pub proof fn law_ids_count_up(id: u64)
    ensures
        id < 0xffff_ffff_ffff_ffff ==> CpuReferenceBackend::after(id) == id + 1,
        CpuReferenceBackend::after(id) != id,
{
}

} // verus!
