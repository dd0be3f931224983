//! Particle vocabulary: hash to `ParticleIdx`.
//!
//! Indices follow the block height at which a particle is first seen, ascending; ties are
//! broken by the lexicographic order of the hash. The index of a particle is therefore the
//! same for everyone who reads the same links in the same order.

use vstd::prelude::*;

use crate::graph::snapshot::Cyberlink;
use crate::order::{gather, invert, stable_order, SortKey};

verus! {

pub type ParticleIdx = u32;

/// How many particles the anchor set holds at most.
pub const ANCHOR_SIZE: usize = 1024;

/// `a` comes before `b` in lexicographic order.
pub open spec fn hash_before(a: [u8; 32], b: [u8; 32]) -> bool {
    exists|k: int| differs_first_at(a, b, k) && a[k] < b[k]
}

/// `k` is the first position at which `a` and `b` differ.
pub open spec fn differs_first_at(a: [u8; 32], b: [u8; 32], k: int) -> bool {
    0 <= k < 32 && a[k] != b[k] && forall|j: int| 0 <= j < k ==> a[j] == b[j]
}

/// Hashes that are not ordered are equal.
proof fn lemma_hash_trichotomy(a: [u8; 32], b: [u8; 32])
    ensures
        a == b || hash_before(a, b) || hash_before(b, a),
        !(hash_before(a, b) && hash_before(b, a)),
        a == b ==> !hash_before(a, b),
{
    if forall|j: int| 0 <= j < 32 ==> a[j] == b[j] {
        assert(a =~= b);
    } else {
        let k = lemma_first_difference(a, b, 32);
        assert(differs_first_at(a, b, k));
        assert(differs_first_at(b, a, k));
    }
    if hash_before(a, b) && hash_before(b, a) {
        let k = choose|k: int| differs_first_at(a, b, k) && a[k] < b[k];
        let m = choose|m: int| differs_first_at(b, a, m) && b[m] < a[m];
        assert(k == m);
    }
}

proof fn lemma_first_difference(a: [u8; 32], b: [u8; 32], n: int) -> (k: int)
    requires
        0 <= n <= 32,
        exists|j: int| 0 <= j < n && a[j] != b[j],
    ensures
        0 <= k < n,
        differs_first_at(a, b, k),
    decreases n,
{
    if exists|j: int| 0 <= j < n - 1 && a[j] != b[j] {
        lemma_first_difference(a, b, n - 1)
    } else {
        n - 1
    }
}

proof fn lemma_hash_before_transitive(a: [u8; 32], b: [u8; 32], c: [u8; 32])
    requires
        hash_before(a, b),
        hash_before(b, c),
    ensures
        hash_before(a, c),
{
    let k = choose|k: int| differs_first_at(a, b, k) && a[k] < b[k];
    let m = choose|m: int| differs_first_at(b, c, m) && b[m] < c[m];
    if k <= m {
        assert(differs_first_at(a, c, k));
    } else {
        assert(differs_first_at(a, c, m));
    }
}

fn is_hash_before(a: &[u8; 32], b: &[u8; 32]) -> (r: bool)
    ensures
        r == hash_before(*a, *b),
{
    let mut k: usize = 0;
    while k < 32
        invariant
            k <= 32,
            forall|j: int| 0 <= j < k ==> a[j] == b[j],
        decreases 32 - k,
    {
        if a[k] != b[k] {
            proof {
                assert(differs_first_at(*a, *b, k as int));
                if a[k as int] > b[k as int] {
                    assert(differs_first_at(*b, *a, k as int));
                    lemma_hash_trichotomy(*a, *b);
                }
            }
            return a[k] < b[k];
        }
        k = k + 1;
    }
    false
}

fn same_hash(a: &[u8; 32], b: &[u8; 32]) -> (r: bool)
    ensures
        r == (*a == *b),
{
    let mut k: usize = 0;
    while k < 32
        invariant
            k <= 32,
            forall|j: int| 0 <= j < k ==> a[j] == b[j],
        decreases 32 - k,
    {
        if a[k] != b[k] {
            return false;
        }
        k = k + 1;
    }
    assert(*a =~= *b);
    true
}

/// A particle's place in the vocabulary: the block it was first seen in, then its hash.
#[derive(Clone, Copy)]
pub struct Seniority {
    pub block: u64,
    pub hash: [u8; 32],
}

impl SortKey for Seniority {
    open spec fn before(self, other: Self) -> bool {
        self.block < other.block || (self.block == other.block && hash_before(
            self.hash,
            other.hash,
        ))
    }

    proof fn strict_weak(a: Self, b: Self, c: Self) {
        lemma_hash_trichotomy(a.hash, a.hash);
        lemma_hash_trichotomy(a.hash, b.hash);
        lemma_hash_trichotomy(b.hash, c.hash);
        lemma_hash_trichotomy(a.hash, c.hash);
        if hash_before(a.hash, b.hash) && hash_before(b.hash, c.hash) {
            lemma_hash_before_transitive(a.hash, b.hash, c.hash);
        }
        if hash_before(c.hash, b.hash) && hash_before(b.hash, a.hash) {
            lemma_hash_before_transitive(c.hash, b.hash, a.hash);
        }
    }

    fn is_before(&self, other: &Self) -> (r: bool) {
        self.block < other.block || (self.block == other.block && is_hash_before(
            &self.hash,
            &other.hash,
        ))
    }
}

/// The particles that the links mention, in reading order: of each link first where it
/// comes from, then where it leads to.
pub open spec fn mention(links: Seq<Cyberlink>, i: int) -> [u8; 32] {
    if i % 2 == 0 {
        links[i / 2].from
    } else {
        links[i / 2].to
    }
}

/// Some link mentions `hash`.
pub open spec fn is_mentioned(links: Seq<Cyberlink>, hash: [u8; 32]) -> bool {
    exists|i: int| 0 <= i < links.len() && (links[i].from == hash || links[i].to == hash)
}

/// Link `i` is the first that mentions `hash`.
pub open spec fn first_mentioned_at(links: Seq<Cyberlink>, hash: [u8; 32], i: int) -> bool {
    &&& 0 <= i < links.len()
    &&& links[i].from == hash || links[i].to == hash
    &&& forall|j: int| 0 <= j < i ==> links[j].from != hash && links[j].to != hash
}

/// The block in which `hash` is first seen.
pub open spec fn first_block(links: Seq<Cyberlink>, hash: [u8; 32]) -> u64 {
    links[choose|i: int| first_mentioned_at(links, hash, i)].block
}

/// The place of `hash` in the vocabulary of `links`.
pub open spec fn seniority(links: Seq<Cyberlink>, hash: [u8; 32]) -> Seniority {
    Seniority { block: first_block(links, hash), hash }
}

/// `hashes` lists every particle that `links` mentions, once, by seniority.
pub open spec fn is_vocabulary_of(links: Seq<Cyberlink>, hashes: Seq<[u8; 32]>) -> bool {
    &&& forall|h: [u8; 32]| #[trigger] hashes.contains(h) <==> is_mentioned(links, h)
    &&& forall|i: int, j: int|
        0 <= i < j < hashes.len() ==> seniority(links, #[trigger] hashes[i]).before(
            seniority(links, #[trigger] hashes[j]),
        )
}

/// Law: links have exactly one vocabulary, so every reader assigns the same indices.
pub proof fn law_vocabulary_is_unique(
    links: Seq<Cyberlink>,
    first: Seq<[u8; 32]>,
    second: Seq<[u8; 32]>,
)
    requires
        is_vocabulary_of(links, first),
        is_vocabulary_of(links, second),
    ensures
        first == second,
{
    assert forall|a: int| 0 <= a < first.len() implies a < second.len() && first[a] == second[a] by {
        lemma_vocabularies_agree_at(links, first, second, a);
    }
    assert forall|a: int| 0 <= a < second.len() implies a < first.len() && first[a] == second[a] by {
        lemma_vocabularies_agree_at(links, second, first, a);
    }
    if first.len() < second.len() {
        assert(0 <= first.len() as int && (first.len() as int) < second.len());
        lemma_vocabularies_agree_at(links, second, first, first.len() as int);
    }
    if second.len() < first.len() {
        lemma_vocabularies_agree_at(links, first, second, second.len() as int);
    }
    assert(first =~= second);
}

proof fn lemma_vocabularies_agree_at(
    links: Seq<Cyberlink>,
    first: Seq<[u8; 32]>,
    second: Seq<[u8; 32]>,
    a: int,
)
    requires
        is_vocabulary_of(links, first),
        is_vocabulary_of(links, second),
        0 <= a < first.len(),
    ensures
        a < second.len(),
        first[a] == second[a],
    decreases a,
{
    assert forall|k: int| 0 <= k < a implies k < second.len() && first[k] == second[k] by {
        lemma_vocabularies_agree_at(links, first, second, k);
    }
    assert(first.contains(first[a]));
    assert(second.contains(first[a]));
    let p = choose|p: int| 0 <= p < second.len() && second[p] == first[a];
    Seniority::strict_weak(
        seniority(links, first[a]),
        seniority(links, first[a]),
        seniority(links, first[a]),
    );
    if p < a {
        assert(first[p] == second[p]);
        assert(seniority(links, first[p]).before(seniority(links, first[a])));
    }
    if a < p {
        assert(first.contains(second[a])) by {
            assert(second.contains(second[a]));
        }
        let q = choose|q: int| 0 <= q < first.len() && first[q] == second[a];
        assert(seniority(links, second[a]).before(seniority(links, second[p])));
        if q < a {
            assert(second[q] == second[a]);
            assert(seniority(links, second[q]).before(seniority(links, second[a])));
            Seniority::strict_weak(
                seniority(links, second[a]),
                seniority(links, second[a]),
                seniority(links, second[a]),
            );
        } else if q > a {
            assert(seniority(links, first[a]).before(seniority(links, first[q])));
            Seniority::strict_weak(
                seniority(links, first[a]),
                seniority(links, second[a]),
                seniority(links, first[a]),
            );
        }
    }
}

/// Particle hashes with their indices.
pub struct ParticleIndex {
    /// index to hash
    hashes: Vec<[u8; 32]>,
    /// the same hashes in lexicographic order
    ranked: Vec<[u8; 32]>,
    /// the index of each hash of `ranked`
    slots: Vec<ParticleIdx>,
}

impl ParticleIndex {
    /// The hashes, by index.
    pub closed spec fn view(&self) -> Seq<[u8; 32]> {
        self.hashes@
    }

    spec fn indexes(&self, k: int, p: int) -> bool {
        0 <= p < self.hashes.len() && self.hashes[p] == self.ranked[k] && self.slots[k] == p as u32
    }

    spec fn is_placed(&self, k: int) -> bool {
        exists|p: int| self.indexes(k, p)
    }

    /// No hash has two indices, and the lookup table holds each hash with its index.
    pub closed spec fn wf(&self) -> bool {
        &&& self.hashes@.no_duplicates()
        &&& self.ranked.len() == self.hashes.len()
        &&& self.slots.len() == self.hashes.len()
        &&& forall|i: int, j: int|
            0 <= i < j < self.ranked.len() ==> hash_before(
                #[trigger] self.ranked[i],
                #[trigger] self.ranked[j],
            )
        &&& forall|k: int| 0 <= k < self.ranked.len() ==> #[trigger] self.is_placed(k)
        &&& forall|p: int|
            0 <= p < self.hashes.len() ==> self.ranked@.contains(#[trigger] self.hashes[p])
    }

    /// The vocabulary of no links.
    pub fn empty() -> (index: Self)
        ensures
            index.wf(),
            index@ == Seq::<[u8; 32]>::empty(),
    {
        ParticleIndex { hashes: Vec::new(), ranked: Vec::new(), slots: Vec::new() }
    }

    /// The vocabulary of `links`.
    pub fn build(links: &[Cyberlink]) -> (index: Self)
        ensures
            index.wf(),
            is_vocabulary_of(links@, index@),
    {
        let mentions = list_mentions(links);
        let by_hash = stable_order(mentions.as_slice());
        let reps = first_of_each(&mentions, &by_hash);
        let mut keys: Vec<Seniority> = Vec::new();
        let mut ranked: Vec<[u8; 32]> = Vec::new();
        let mut k: usize = 0;
        while k < reps.len()
            invariant
                k <= reps.len(),
                keys.len() == k,
                ranked.len() == k,
                mentions.len() == 2 * links.len(),
                forall|i: int|
                    0 <= i < mentions.len() ==> (#[trigger] mentions[i]).hash == mention(
                        links@,
                        i,
                    ),
                forall|i: int| 0 <= i < reps.len() ==> #[trigger] reps[i] < mentions.len(),
                forall|i: int|
                    0 <= i < k ==> #[trigger] ranked[i] == mentions[reps[i] as int].hash,
                forall|i: int|
                    0 <= i < k ==> #[trigger] keys[i] == (Seniority {
                        block: links[reps[i] as int / 2].block,
                        hash: ranked[i],
                    }),
            decreases reps.len() - k,
        {
            let hash = mentions[reps[k]].hash;
            ranked.push(hash);
            keys.push(Seniority { block: links[reps[k] / 2].block, hash });
            k = k + 1;
        }
        let by_age = stable_order(keys.as_slice());
        let hashes = gather(ranked.as_slice(), by_age.as_slice());
        let slots = invert(by_age.as_slice());
        let index = ParticleIndex { hashes, ranked, slots };
        proof {
            assert forall|i: int| 0 <= i < reps.len() implies #[trigger] keys[i] == seniority(
                links@,
                ranked[i],
            ) by {
                lemma_first_mention(links@, mentions@, reps[i] as int);
            }
            assert forall|i: int, j: int| 0 <= i < j < ranked.len() implies hash_before(
                #[trigger] ranked[i],
                #[trigger] ranked[j],
            ) by {}
            lemma_sorted_vocabulary(links@, ranked@, keys@, by_age@, index.hashes@);
            assert forall|h: [u8; 32]| #[trigger] ranked@.contains(h) <==> is_mentioned(links@, h) by {
                lemma_ranked_mentions(links@, mentions@, reps@, ranked@, h);
            }
            crate::order::lemma_order_distinct(keys@, by_age@);
            assert forall|k: int| 0 <= k < ranked.len() implies #[trigger] index.is_placed(k) by {
                assert(by_age@.contains(k as usize));
                let p = choose|p: int| 0 <= p < by_age.len() && by_age[p] == k as usize;
                assert(index.indexes(k, p));
            }
            assert forall|p: int| 0 <= p < index.hashes.len() implies index.ranked@.contains(
                #[trigger] index.hashes[p],
            ) by {
                assert(index.ranked@[by_age[p] as int] == index.hashes[p]);
            }
            assert forall|i: int, j: int|
                0 <= i < index.hashes.len() && 0 <= j < index.hashes.len() && i
                    != j implies index.hashes@[i] != index.hashes@[j] by {
                let a = by_age[i] as int;
                let b = by_age[j] as int;
                lemma_hash_trichotomy(ranked[a], ranked[b]);
                assert(a != b);
                if a < b {
                    assert(hash_before(ranked[a], ranked[b]));
                } else {
                    assert(hash_before(ranked[b], ranked[a]));
                }
                lemma_hash_trichotomy(ranked[b], ranked[a]);
            }
        }
        index
    }

    /// The number of particles.
    pub fn len(&self) -> (n: usize)
        ensures
            n == self@.len(),
    {
        self.hashes.len()
    }

    /// Whether there are no particles.
    pub fn is_empty(&self) -> (r: bool)
        ensures
            r == (self@.len() == 0),
    {
        self.hashes.len() == 0
    }

    /// The index of `hash`, if it is a particle of this vocabulary.
    pub fn get(&self, hash: &[u8; 32]) -> (r: Option<ParticleIdx>)
        requires
            self.wf(),
        ensures
            match r {
                Some(idx) => self@.contains(*hash) && idx == self@.index_of(*hash) as u32,
                None => !self@.contains(*hash),
            },
    {
        let mut lo: usize = 0;
        let mut hi: usize = self.ranked.len();
        while lo < hi
            invariant
                self.wf(),
                lo <= hi <= self.ranked.len(),
                forall|k: int| 0 <= k < lo ==> #[trigger] self.ranked[k] != *hash,
                forall|k: int| hi <= k < self.ranked.len() ==> #[trigger] self.ranked[k] != *hash,
            decreases hi - lo,
        {
            let mid: usize = lo + (hi - lo) / 2;
            if same_hash(&self.ranked[mid], hash) {
                proof {
                    assert(self.is_placed(mid as int));
                    let p = choose|p: int| self.indexes(mid as int, p);
                    assert(self.indexes(mid as int, p));
                    assert(self.hashes@[p] == *hash);
                    assert(self@.contains(*hash));
                    let q = self@.index_of(*hash);
                    assert(self@[q] == *hash);
                }
                return Some(self.slots[mid]);
            }
            if is_hash_before(&self.ranked[mid], hash) {
                proof {
                    assert forall|k: int| 0 <= k < mid + 1 implies #[trigger] self.ranked[k] != *hash by {
                        if k < mid {
                            lemma_hash_before_transitive(
                                self.ranked[k],
                                self.ranked[mid as int],
                                *hash,
                            );
                            lemma_hash_trichotomy(self.ranked[k], *hash);
                        }
                    }
                }
                lo = mid + 1;
            } else {
                proof {
                    lemma_hash_trichotomy(self.ranked[mid as int], *hash);
                    assert forall|k: int| mid <= k < self.ranked.len() implies #[trigger] self.ranked[k]
                        != *hash by {
                        if mid < k {
                            lemma_hash_before_transitive(
                                *hash,
                                self.ranked[mid as int],
                                self.ranked[k],
                            );
                            lemma_hash_trichotomy(*hash, self.ranked[k]);
                        }
                    }
                }
                hi = mid;
            }
        }
        proof {
            if self@.contains(*hash) {
                let p = choose|p: int| 0 <= p < self.hashes.len() && self.hashes@[p] == *hash;
                assert(self.ranked@.contains(self.hashes[p]));
                let k = choose|k: int| 0 <= k < self.ranked.len() && self.ranked@[k] == *hash;
                assert(self.ranked[k] == *hash);
            }
        }
        None
    }

    /// The hash with index `idx`.
    pub fn hash(&self, idx: ParticleIdx) -> (r: &[u8; 32])
        requires
            idx < self@.len(),
        ensures
            *r == self@[idx as int],
    {
        &self.hashes[idx as usize]
    }

    /// The anchor set: the most senior particles, `ANCHOR_SIZE` of them or as many as there
    /// are.
    pub fn anchor(&self) -> (r: &[[u8; 32]])
        ensures
            r.len() <= 1024,
            r.len() == 1024 || r@ == self@,
            r@ == self@.take(
                if self@.len() < ANCHOR_SIZE {
                    self@.len() as int
                } else {
                    ANCHOR_SIZE as int
                },
            ),
    {
        let n: usize = if self.hashes.len() < ANCHOR_SIZE {
            self.hashes.len()
        } else {
            ANCHOR_SIZE
        };
        &self.hashes.as_slice()[0..n]
    }
}

/// Law: looking up the hash of an index gives the index back, as long as the indices fit
/// their type.
pub proof fn law_index_roundtrip(index: ParticleIndex, i: int)
    requires
        index.wf(),
        0 <= i < index@.len(),
        index@.len() <= 0x1_0000_0000,
    ensures
        index@.contains(index@[i]),
        index@.index_of(index@[i]) as u32 == i,
{
    let q = index@.index_of(index@[i]);
    assert(index@.contains(index@[i]));
    assert(index@[q] == index@[i]);
    assert(q == i);
}

/// Law: both ends of every link are particles of its vocabulary.
pub proof fn law_endpoints_are_indexed(links: Seq<Cyberlink>, hashes: Seq<[u8; 32]>, i: int)
    requires
        is_vocabulary_of(links, hashes),
        0 <= i < links.len(),
    ensures
        hashes.contains(links[i].from),
        hashes.contains(links[i].to),
{
    assert(is_mentioned(links, links[i].from));
    assert(is_mentioned(links, links[i].to));
}

/// Of two hashes, the one that spells the lower number comes first.
pub proof fn lemma_hash_order_is_numeric(a: [u8; 32], b: [u8; 32])
    ensures
        hash_before(a, b) <==> crate::bytes::be_value(a@) < crate::bytes::be_value(b@),
{
    lemma_hash_trichotomy(a, b);
    if hash_before(a, b) {
        let k = choose|k: int| differs_first_at(a, b, k) && a[k] < b[k];
        crate::bytes::lemma_be_value_orders(a@, b@, k);
    }
    if hash_before(b, a) {
        let k = choose|k: int| differs_first_at(b, a, k) && b[k] < a[k];
        crate::bytes::lemma_be_value_orders(b@, a@, k);
    }
}

/// Law: a particle with a lower index was first seen in a lower block, or in the same block
/// and its hash, read as a number with the most significant byte first, is lower. `a` and `b`
/// are the first links that mention the two.
pub proof fn law_vocabulary_goes_by_block_then_number(
    links: Seq<Cyberlink>,
    hashes: Seq<[u8; 32]>,
    i: int,
    j: int,
    a: int,
    b: int,
)
    requires
        is_vocabulary_of(links, hashes),
        0 <= i < j < hashes.len(),
        0 <= a < links.len(),
        links[a].from == hashes[i] || links[a].to == hashes[i],
        forall|k: int|
            0 <= k < a ==> (#[trigger] links[k]).from != hashes[i] && links[k].to != hashes[i],
        0 <= b < links.len(),
        links[b].from == hashes[j] || links[b].to == hashes[j],
        forall|k: int|
            0 <= k < b ==> (#[trigger] links[k]).from != hashes[j] && links[k].to != hashes[j],
    ensures
        links[a].block <= links[b].block,
        links[a].block == links[b].block ==> crate::bytes::be_value(hashes[i]@)
            < crate::bytes::be_value(hashes[j]@),
{
    lemma_first_link(links, hashes[i], a);
    lemma_first_link(links, hashes[j], b);
    assert(seniority(links, hashes[i]).before(seniority(links, hashes[j])));
    lemma_hash_order_is_numeric(hashes[i], hashes[j]);
}

proof fn lemma_first_link(links: Seq<Cyberlink>, hash: [u8; 32], a: int)
    requires
        0 <= a < links.len(),
        links[a].from == hash || links[a].to == hash,
        forall|k: int| 0 <= k < a ==> (#[trigger] links[k]).from != hash && links[k].to != hash,
    ensures
        first_block(links, hash) == links[a].block,
{
    assert(first_mentioned_at(links, hash, a));
    let c = choose|c: int| first_mentioned_at(links, hash, c);
    assert(first_mentioned_at(links, hash, c));
    if c < a {
        assert(links[c].from != hash && links[c].to != hash);
    } else if a < c {
        assert(links[a].from != hash && links[a].to != hash);
    }
}

/// Law: a vocabulary holds the two ends of each link, nothing else, and nothing twice.
pub proof fn law_vocabulary_holds_the_ends(
    links: Seq<Cyberlink>,
    hashes: Seq<[u8; 32]>,
    i: int,
    j: int,
)
    requires
        is_vocabulary_of(links, hashes),
        0 <= i < j < hashes.len(),
    ensures
        hashes[i] != hashes[j],
        exists|k: int|
            0 <= k < links.len() && ((#[trigger] links[k]).from == hashes[i] || links[k].to
                == hashes[i]),
        exists|k: int|
            0 <= k < links.len() && ((#[trigger] links[k]).from == hashes[j] || links[k].to
                == hashes[j]),
{
    assert(hashes.contains(hashes[i]) && hashes.contains(hashes[j]));
    assert(is_mentioned(links, hashes[i]) && is_mentioned(links, hashes[j]));
    let a = choose|a: int|
        0 <= a < links.len() && (links[a].from == hashes[i] || links[a].to == hashes[i]);
    let b = choose|b: int|
        0 <= b < links.len() && (links[b].from == hashes[j] || links[b].to == hashes[j]);
    assert(links[a].from == hashes[i] || links[a].to == hashes[i]);
    assert(links[b].from == hashes[j] || links[b].to == hashes[j]);
    Seniority::strict_weak(
        seniority(links, hashes[i]),
        seniority(links, hashes[j]),
        seniority(links, hashes[i]),
    );
    assert(seniority(links, hashes[i]).before(seniority(links, hashes[j])));
}

/// Law: where links come in block order, a particle's first-seen block is the lowest
/// block of any link that mentions it.
pub proof fn law_first_block_is_lowest(links: Seq<Cyberlink>, i: int, hash: [u8; 32])
    requires
        forall|a: int, b: int| 0 <= a <= b < links.len() ==> links[a].block <= links[b].block,
        0 <= i < links.len(),
        links[i].from == hash || links[i].to == hash,
    ensures
        first_block(links, hash) <= links[i].block,
{
    let f = lemma_first_mention_exists(links, hash, i);
    let c = choose|c: int| first_mentioned_at(links, hash, c);
    assert(first_mentioned_at(links, hash, c));
    if i < c {
        assert(links[i].from != hash && links[i].to != hash);
    }
}

proof fn lemma_first_mention_exists(links: Seq<Cyberlink>, hash: [u8; 32], i: int) -> (f: int)
    requires
        0 <= i < links.len(),
        links[i].from == hash || links[i].to == hash,
    ensures
        first_mentioned_at(links, hash, f),
    decreases i,
{
    if exists|j: int| 0 <= j < i && (links[j].from == hash || links[j].to == hash) {
        let j = choose|j: int| 0 <= j < i && (links[j].from == hash || links[j].to == hash);
        lemma_first_mention_exists(links, hash, j)
    } else {
        i
    }
}

fn list_mentions(links: &[Cyberlink]) -> (out: Vec<Seniority>)
    ensures
        out.len() == 2 * links.len(),
        forall|i: int|
            0 <= i < out.len() ==> #[trigger] out[i] == (Seniority {
                block: 0,
                hash: mention(links@, i),
            }),
{
    let mut out: Vec<Seniority> = Vec::new();
    let mut k: usize = 0;
    while k < links.len()
        invariant
            k <= links.len(),
            out.len() == 2 * k,
            forall|i: int|
                0 <= i < out.len() ==> #[trigger] out[i] == (Seniority {
                    block: 0,
                    hash: mention(links@, i),
                }),
        decreases links.len() - k,
    {
        out.push(Seniority { block: 0, hash: links[k].from });
        out.push(Seniority { block: 0, hash: links[k].to });
        k = k + 1;
    }
    out
}

/// The first mention of each hash, the hashes ascending.
fn first_of_each(mentions: &Vec<Seniority>, order: &Vec<usize>) -> (reps: Vec<usize>)
    requires
        crate::order::is_order_of(mentions@, order@),
        forall|i: int| 0 <= i < mentions.len() ==> (#[trigger] mentions[i]).block == 0,
    ensures
        forall|i: int| 0 <= i < reps.len() ==> #[trigger] reps[i] < mentions.len(),
        forall|i: int, j: int|
            0 <= i < j < reps.len() ==> hash_before(
                mentions[#[trigger] reps[i] as int].hash,
                mentions[#[trigger] reps[j] as int].hash,
            ),
        forall|i: int, m: int|
            0 <= i < reps.len() && 0 <= m < mentions.len() && mentions[m].hash
                == mentions[reps[i] as int].hash ==> #[trigger] reps[i] <= #[trigger] ident(m),
        forall|m: int|
            0 <= m < mentions.len() ==> #[trigger] is_represented(mentions@, reps@, m),
{
    let mut reps: Vec<usize> = Vec::new();
    let mut t: usize = 0;
    while t < order.len()
        invariant
            t <= order.len(),
            crate::order::is_order_of(mentions@, order@),
            forall|i: int| 0 <= i < mentions.len() ==> (#[trigger] mentions[i]).block == 0,
            forall|i: int| 0 <= i < reps.len() ==> #[trigger] reps[i] < mentions.len(),
            reps.len() > 0 <==> t > 0,
            t > 0 ==> mentions[reps@.last() as int].hash == mentions[order[t - 1] as int].hash,
            forall|i: int, j: int|
                0 <= i < j < reps.len() ==> hash_before(
                    mentions[#[trigger] reps[i] as int].hash,
                    mentions[#[trigger] reps[j] as int].hash,
                ),
            forall|i: int, m: int|
                0 <= i < reps.len() && 0 <= m < mentions.len() && mentions[m].hash
                    == mentions[reps[i] as int].hash ==> #[trigger] reps[i] <= #[trigger] ident(m),
            forall|s: int|
                0 <= s < t ==> exists|i: int|
                    0 <= i < reps.len() && mentions[#[trigger] reps[i] as int].hash
                        == mentions[#[trigger] order[s] as int].hash,
        decreases order.len() - t,
    {
        let cur: usize = order[t];
        let ghost before = reps@;
        if t > 0 && same_hash(&mentions[order[t - 1]].hash, &mentions[cur].hash) {
            assert(mentions[reps@.last() as int].hash == mentions[cur as int].hash);
        } else {
            reps.push(cur);
            proof {
                lemma_group_start(mentions@, order@, t as int);
                assert forall|i: int| 0 <= i < before.len() implies hash_before(
                    mentions[#[trigger] reps[i] as int].hash,
                    mentions[cur as int].hash,
                ) by {
                    if i < before.len() - 1 {
                        lemma_hash_before_transitive(
                            mentions[before[i] as int].hash,
                            mentions[before.last() as int].hash,
                            mentions[cur as int].hash,
                        );
                    }
                }
                assert forall|i: int, m: int|
                    0 <= i < reps.len() && 0 <= m < mentions.len() && mentions[m].hash
                        == mentions[reps[i] as int].hash implies #[trigger] reps[i]
                    <= #[trigger] ident(m) by {
                    if i == before.len() {
                        assert(order@.contains(m as usize));
                        let u = choose|u: int| 0 <= u < order.len() && order[u] == m as usize;
                        lemma_hash_trichotomy(mentions[m].hash, mentions[cur as int].hash);
                        if u < t {
                            assert(hash_before(
                                mentions[order[u] as int].hash,
                                mentions[order[t as int] as int].hash,
                            ));
                        } else if u > t {
                            assert(crate::order::precedes(
                                mentions@,
                                order[t as int] as int,
                                order[u] as int,
                            ));
                        }
                    } else {
                        assert(before[i] <= ident(m));
                    }
                }
            }
        }
        proof {
            assert forall|s: int| 0 <= s < t + 1 implies exists|i: int|
                0 <= i < reps.len() && mentions[#[trigger] reps[i] as int].hash
                    == mentions[#[trigger] order[s] as int].hash by {
                if s < t {
                    let i = choose|i: int|
                        0 <= i < before.len() && mentions[#[trigger] before[i] as int].hash
                            == mentions[order[s] as int].hash;
                    assert(reps[i] == before[i]);
                } else {
                    assert(mentions[reps[reps.len() - 1] as int].hash == mentions[cur as int].hash);
                }
            }
        }
        t = t + 1;
    }
    proof {
        assert forall|m: int| 0 <= m < mentions.len() implies #[trigger] is_represented(
            mentions@,
            reps@,
            m,
        ) by {
            assert(order@.contains(m as usize));
            let s = choose|s: int| 0 <= s < order.len() && order[s] == m as usize;
            let i = choose|i: int|
                0 <= i < reps.len() && mentions[#[trigger] reps[i] as int].hash
                    == mentions[order[s] as int].hash;
            assert(mentions@[reps@[i] as int].hash == mentions@[m].hash);
        }
    }
    reps
}

/// Some representative has the hash of mention `m`.
spec fn is_represented(mentions: Seq<Seniority>, reps: Seq<usize>, m: int) -> bool {
    exists|i: int|
        0 <= i < reps.len() && mentions[#[trigger] reps[i] as int].hash == mentions[m].hash
}

spec fn ident(m: int) -> int {
    m
}

/// Where the hash changes in an ascending list, every earlier hash is smaller.
proof fn lemma_group_start(mentions: Seq<Seniority>, order: Seq<usize>, t: int)
    requires
        crate::order::is_order_of(mentions, order),
        forall|i: int| 0 <= i < mentions.len() ==> (#[trigger] mentions[i]).block == 0,
        0 <= t < order.len(),
        t > 0 ==> mentions[order[t - 1] as int].hash != mentions[order[t] as int].hash,
    ensures
        forall|s: int|
            0 <= s < t ==> hash_before(
                mentions[#[trigger] order[s] as int].hash,
                mentions[order[t] as int].hash,
            ),
{
    assert forall|s: int| 0 <= s < t implies hash_before(
        mentions[#[trigger] order[s] as int].hash,
        mentions[order[t] as int].hash,
    ) by {
        let last = mentions[order[t - 1] as int].hash;
        let cur = mentions[order[t] as int].hash;
        let here = mentions[order[s] as int].hash;
        assert(crate::order::precedes(mentions, order[t - 1] as int, order[t] as int));
        lemma_hash_trichotomy(last, cur);
        if s < t - 1 {
            assert(crate::order::precedes(mentions, order[s] as int, order[t - 1] as int));
            lemma_hash_trichotomy(here, last);
            if here != last {
                lemma_hash_before_transitive(here, last, cur);
            }
        }
    }
}

/// The first mention of a hash lies in the first link that mentions it.
proof fn lemma_first_mention(links: Seq<Cyberlink>, mentions: Seq<Seniority>, rep: int)
    requires
        mentions.len() == 2 * links.len(),
        forall|i: int| 0 <= i < mentions.len() ==> (#[trigger] mentions[i]).hash == mention(links, i),
        0 <= rep < mentions.len(),
        forall|m: int|
            0 <= m < mentions.len() && mentions[m].hash == mentions[rep].hash ==> rep
                <= #[trigger] ident(m),
    ensures
        links[rep / 2].block == first_block(links, mentions[rep].hash),
{
    let hash = mentions[rep].hash;
    let i = rep / 2;
    assert forall|j: int| 0 <= j < i implies links[j].from != hash && links[j].to != hash by {
        assert(mentions[2 * j].hash == mention(links, 2 * j));
        assert(mentions[2 * j + 1].hash == mention(links, 2 * j + 1));
        assert(rep <= ident(2 * j) || mentions[2 * j].hash != hash);
        assert(rep <= ident(2 * j + 1) || mentions[2 * j + 1].hash != hash);
    }
    assert(mentions[rep].hash == mention(links, rep));
    assert(first_mentioned_at(links, hash, i));
    let c = choose|c: int| first_mentioned_at(links, hash, c);
    assert(first_mentioned_at(links, hash, c));
    assert(c == i) by {
        if c < i {
            assert(links[c].from != hash && links[c].to != hash);
        } else if i < c {
            assert(links[i].from != hash && links[i].to != hash);
        }
    }
}

/// The representatives' hashes are the hashes that the links mention.
proof fn lemma_ranked_mentions(
    links: Seq<Cyberlink>,
    mentions: Seq<Seniority>,
    reps: Seq<usize>,
    ranked: Seq<[u8; 32]>,
    h: [u8; 32],
)
    requires
        mentions.len() == 2 * links.len(),
        forall|i: int| 0 <= i < mentions.len() ==> (#[trigger] mentions[i]).hash == mention(links, i),
        ranked.len() == reps.len(),
        forall|i: int| 0 <= i < reps.len() ==> #[trigger] reps[i] < mentions.len(),
        forall|i: int| 0 <= i < reps.len() ==> #[trigger] ranked[i] == mentions[reps[i] as int].hash,
        forall|m: int|
            0 <= m < mentions.len() ==> #[trigger] is_represented(mentions, reps, m),
    ensures
        ranked.contains(h) <==> is_mentioned(links, h),
{
    if ranked.contains(h) {
        let i = choose|i: int| 0 <= i < ranked.len() && ranked[i] == h;
        let m = reps[i] as int;
        assert(mentions[m].hash == mention(links, m));
        assert(0 <= m / 2 < links.len());
        assert(links[m / 2].from == h || links[m / 2].to == h);
    }
    if is_mentioned(links, h) {
        let l = choose|l: int|
            0 <= l < links.len() && (links[l].from == h || links[l].to == h);
        let m = if links[l].from == h {
            2 * l
        } else {
            2 * l + 1
        };
        assert(mentions[m].hash == h);
        assert(is_represented(mentions, reps, m));
        let i = choose|i: int|
            0 <= i < reps.len() && mentions[#[trigger] reps[i] as int].hash == mentions[m].hash;
        assert(ranked[i] == h);
    }
}

/// Sorting the ranked hashes by seniority lists them strictly by seniority.
proof fn lemma_sorted_vocabulary(
    links: Seq<Cyberlink>,
    ranked: Seq<[u8; 32]>,
    keys: Seq<Seniority>,
    order: Seq<usize>,
    hashes: Seq<[u8; 32]>,
)
    requires
        keys.len() == ranked.len() <= usize::MAX,
        forall|i: int| 0 <= i < keys.len() ==> #[trigger] keys[i] == seniority(links, ranked[i]),
        forall|i: int, j: int|
            0 <= i < j < ranked.len() ==> hash_before(#[trigger] ranked[i], #[trigger] ranked[j]),
        crate::order::is_order_of(keys, order),
        hashes.len() == order.len(),
        forall|a: int| 0 <= a < hashes.len() ==> #[trigger] hashes[a] == ranked[order[a] as int],
    ensures
        forall|i: int, j: int|
            0 <= i < j < hashes.len() ==> seniority(links, #[trigger] hashes[i]).before(
                seniority(links, #[trigger] hashes[j]),
            ),
        forall|h: [u8; 32]| #[trigger] hashes.contains(h) <==> ranked.contains(h),
{
    assert forall|i: int, j: int| 0 <= i < j < hashes.len() implies seniority(
        links,
        #[trigger] hashes[i],
    ).before(seniority(links, #[trigger] hashes[j])) by {
        let a = order[i] as int;
        let b = order[j] as int;
        assert(crate::order::precedes(keys, a, b));
        assert(keys[a] == seniority(links, ranked[a]));
        assert(keys[b] == seniority(links, ranked[b]));
        crate::order::lemma_precedes_asymmetric(keys, a, b);
        lemma_hash_trichotomy(ranked[a], ranked[b]);
        if a < b {
            assert(hash_before(ranked[a], ranked[b]));
        } else {
            assert(hash_before(ranked[b], ranked[a]));
        }
        lemma_hash_trichotomy(ranked[b], ranked[a]);
    }
    assert forall|h: [u8; 32]| #[trigger] hashes.contains(h) <==> ranked.contains(h) by {
        if hashes.contains(h) {
            let a = choose|a: int| 0 <= a < hashes.len() && hashes[a] == h;
            assert(ranked[order[a] as int] == h);
        }
        if ranked.contains(h) {
            let k = choose|k: int| 0 <= k < ranked.len() && ranked[k] == h;
            assert(order.contains(k as usize));
            let a = choose|a: int| 0 <= a < order.len() && order[a] == k as usize;
            assert(hashes[a] == h);
        }
    }
}

} // verus!
