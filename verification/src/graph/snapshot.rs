//! `.graph` reader: splits the frontmatter off, locates the named sections and
//! iterates the fixed-size records of the `cyberlinks` section without copying it.
//!
//! Record layout:
//! ```text
//! [0..32]    neuron id       (hash)
//! [32..64]   from particle   (hash)
//! [64..96]   to particle     (hash)
//! [96..100]  token index     (u32 le)
//! [100..116] stake amount    (u128 le)
//! [116..117] valence         (i8: -1/0/+1)
//! [117..125] block height    (u64 le)
//! [125..128] padding
//! ```

use vstd::prelude::*;
use vstd::utf8::*;

use crate::bytes::{matches_at, read_le};
use crate::error::{MirError, Result};
use crate::text::{debug_list, decimal, same_text, utf8_text};

verus! {

/// Length of a record of the `cyberlinks` section.
pub const RECORD_SIZE: usize = 128;

/// One link of the graph.
#[derive(Debug, Clone, Copy)]
pub struct Cyberlink {
    pub neuron: [u8; 32],
    pub from: [u8; 32],
    pub to: [u8; 32],
    pub token: u32,
    pub amount: u128,
    pub valence: i8,
    pub block: u64,
}

/// The two's-complement reading of a byte.
pub open spec fn signed_byte(b: u8) -> int {
    if b < 128 {
        b as int
    } else {
        b - 256
    }
}

impl Cyberlink {
    /// `record` spells this link.
    pub open spec fn is_decoding_of(self, record: Seq<u8>) -> bool {
        &&& self.neuron@ == record.subrange(0, 32)
        &&& self.from@ == record.subrange(32, 64)
        &&& self.to@ == record.subrange(64, 96)
        &&& self.token == crate::bytes::le_value(record.subrange(96, 100))
        &&& self.amount == crate::bytes::le_value(record.subrange(100, 116))
        &&& self.valence == signed_byte(record[116])
        &&& self.block == crate::bytes::le_value(record.subrange(117, 125))
    }

    /// The record that spells this link, its padding zero.
    #[verifier::opaque]
    pub open spec fn record(self) -> Seq<u8> {
        self.neuron@ + self.from@ + self.to@ + crate::bytes::le_bytes(self.token as nat, 4)
            + crate::bytes::le_bytes(self.amount as nat, 16) + seq![
            (if self.valence >= 0 {
                self.valence as int
            } else {
                self.valence + 256
            }) as u8,
        ] + crate::bytes::le_bytes(self.block as nat, 8) + seq![0u8, 0u8, 0u8]
    }

    /// Decodes one record.
    pub fn decode(b: &[u8; RECORD_SIZE]) -> (link: Self)
        ensures
            link.is_decoding_of(b@),
    {
        let record: &[u8] = b.as_slice();
        assert(record@ =~= record@.subrange(0, 128));
        decode_at(record, 0)
    }
}

fn read_hash(b: &[u8], at: usize) -> (h: [u8; 32])
    requires
        at + 32 <= b.len(),
    ensures
        h@ == b@.subrange(at as int, at + 32),
{
    let mut h: [u8; 32] = [0u8; 32];
    let mut k: usize = 0;
    while k < 32
        invariant
            k <= 32,
            at + 32 <= b.len(),
            forall|i: int| 0 <= i < k ==> h[i] == b[at + i],
        decreases 32 - k,
    {
        h[k] = b[at + k];
        k = k + 1;
    }
    assert(h@ =~= b@.subrange(at as int, at + 32));
    h
}

fn decode_at(b: &[u8], at: usize) -> (link: Cyberlink)
    requires
        at + 128 <= b.len(),
    ensures
        link.is_decoding_of(b@.subrange(at as int, at + 128)),
{
    let ghost record = b@.subrange(at as int, at + 128);
    proof {
        crate::bytes::lemma_le_limits();
        assert(record.subrange(0, 32) =~= b@.subrange(at as int, at + 32));
        assert(record.subrange(32, 64) =~= b@.subrange(at + 32, at + 64));
        assert(record.subrange(64, 96) =~= b@.subrange(at + 64, at + 96));
        assert(record.subrange(96, 100) =~= b@.subrange(at + 96, at + 100));
        assert(record.subrange(100, 116) =~= b@.subrange(at + 100, at + 116));
        assert(record.subrange(117, 125) =~= b@.subrange(at + 117, at + 125));
    }
    let v: u8 = b[at + 116];
    assert(v as i8 == if v < 128 {
        v as int
    } else {
        v - 256
    }) by (bit_vector);
    Cyberlink {
        neuron: read_hash(b, at),
        from: read_hash(b, at + 32),
        to: read_hash(b, at + 64),
        token: read_le(b, at + 96, 4) as u32,
        amount: read_le(b, at + 100, 16),
        valence: v as i8,
        block: read_le(b, at + 117, 8) as u64,
    }
}

/// Law: a record spells exactly one link.
pub proof fn law_decoding_is_unique(record: Seq<u8>, a: Cyberlink, b: Cyberlink)
    requires
        a.is_decoding_of(record),
        b.is_decoding_of(record),
    ensures
        a == b,
{
    assert(a.neuron =~= b.neuron);
    assert(a.from =~= b.from);
    assert(a.to =~= b.to);
}

/// Law: a record holds, one after the other, the neuron, both ends, the token, the amount, the
/// valence and the block; its last three bytes do not count.
pub proof fn law_records_have_their_layout(record: Seq<u8>, link: Cyberlink, i: int)
    requires
        record.len() == 128,
        link.is_decoding_of(record),
    ensures
        0 <= i < 32 ==> link.neuron[i] == record[i] && link.from[i] == record[32 + i] && link.to[i]
            == record[64 + i],
        link.token == record[96] + 256 * record[97] + 65536 * record[98] + 16777216 * record[99],
        link.amount % 256 == record[100],
        link.amount / 256 == crate::bytes::le_value(record.subrange(101, 116)),
        link.block % 256 == record[117],
        link.block / 256 == crate::bytes::le_value(record.subrange(118, 125)),
        -128 <= link.valence < 128,
        link.valence == record[116] || link.valence == record[116] - 256,
        forall|other: Seq<u8>|
            other.len() == 128 && other.take(125) == record.take(125)
                ==> #[trigger] link.is_decoding_of(other),
{
    if 0 <= i < 32 {
        assert(link.neuron@[i] == record.subrange(0, 32)[i]);
        assert(link.from@[i] == record.subrange(32, 64)[i]);
        assert(link.to@[i] == record.subrange(64, 96)[i]);
    }
    crate::bytes::law_four_bytes_make_a_word(record.subrange(96, 100));
    assert(record.subrange(100, 116).skip(1) =~= record.subrange(101, 116));
    assert(record.subrange(117, 125).skip(1) =~= record.subrange(118, 125));
    assert forall|other: Seq<u8>| other.len() == 128 && other.take(125) == record.take(125) implies
    #[trigger] link.is_decoding_of(other) by {
        assert forall|k: int| 0 <= k < 125 implies other[k] == record[k] by {
            assert(other.take(125)[k] == record.take(125)[k]);
        }
        assert(other.subrange(0, 32) =~= record.subrange(0, 32));
        assert(other.subrange(32, 64) =~= record.subrange(32, 64));
        assert(other.subrange(64, 96) =~= record.subrange(64, 96));
        assert(other.subrange(96, 100) =~= record.subrange(96, 100));
        assert(other.subrange(100, 116) =~= record.subrange(100, 116));
        assert(other.subrange(117, 125) =~= record.subrange(117, 125));
    }
}

/// Law: a link's record decodes to the link.
pub proof fn law_record_roundtrip(link: Cyberlink)
    ensures
        link.record().len() == 128,
        link.is_decoding_of(link.record()),
{
    reveal(Cyberlink::record);
    crate::bytes::lemma_le_limits();
    crate::bytes::lemma_le_roundtrip(link.token as nat, 4);
    crate::bytes::lemma_le_roundtrip(link.amount as nat, 16);
    crate::bytes::lemma_le_roundtrip(link.block as nat, 8);
    let r = link.record();
    assert(r.subrange(0, 32) =~= link.neuron@);
    assert(r.subrange(32, 64) =~= link.from@);
    assert(r.subrange(64, 96) =~= link.to@);
    assert(r.subrange(96, 100) =~= crate::bytes::le_bytes(link.token as nat, 4));
    assert(r.subrange(100, 116) =~= crate::bytes::le_bytes(link.amount as nat, 16));
    assert(r.subrange(117, 125) =~= crate::bytes::le_bytes(link.block as nat, 8));
}

/// The links of a `cyberlinks` section, in file order.
pub struct CyberlinkIter<'a> {
    bytes: &'a [u8],
    pos: usize,
}

impl<'a> CyberlinkIter<'a> {
    /// The bytes that have not been read yet.
    pub closed spec fn rest(&self) -> Seq<u8> {
        self.bytes@.subrange(self.pos as int, self.bytes@.len() as int)
    }

    /// The position is inside the section.
    pub closed spec fn wf(&self) -> bool {
        self.pos <= self.bytes.len()
    }

    /// Starts at the first record of `bytes`.
    pub fn new(bytes: &'a [u8]) -> (it: Self)
        ensures
            it.wf(),
            it.rest() == bytes@,
    {
        let it = CyberlinkIter { bytes, pos: 0 };
        assert(it.rest() =~= bytes@);
        it
    }

    /// The next link; none once fewer bytes than a record are left.
    pub fn next(&mut self) -> (r: Option<Cyberlink>)
        requires
            old(self).wf(),
        ensures
            final(self).wf(),
            old(self).rest().len() < RECORD_SIZE ==> r is None && *final(self) == *old(self),
            old(self).rest().len() >= RECORD_SIZE ==> {
                &&& r is Some
                &&& r->0.is_decoding_of(old(self).rest().subrange(0, RECORD_SIZE as int))
                &&& final(self).rest() == old(self).rest().skip(RECORD_SIZE as int)
            },
    {
        if self.bytes.len() - self.pos < RECORD_SIZE {
            return None;
        }
        let link = decode_at(self.bytes, self.pos);
        proof {
            assert(self.rest().subrange(0, 128) =~= self.bytes@.subrange(
                self.pos as int,
                self.pos + 128,
            ));
        }
        self.pos = self.pos + RECORD_SIZE;
        assert(self.rest() =~= old(self).rest().skip(128));
        Some(link)
    }

    /// The exact number of links that are left, as both bounds.
    pub fn size_hint(&self) -> (r: (usize, Option<usize>))
        requires
            self.wf(),
        ensures
            r.0 == self.rest().len() / (RECORD_SIZE as nat),
            r.1 == Some(r.0),
    {
        let n: usize = (self.bytes.len() - self.pos) / RECORD_SIZE;
        (n, Some(n))
    }

    /// All the links that are left.
    pub fn collect(self) -> (links: Vec<Cyberlink>)
        requires
            self.wf(),
        ensures
            links.len() == self.rest().len() / (RECORD_SIZE as nat),
            forall|i: int|
                0 <= i < links.len() ==> (#[trigger] links[i]).is_decoding_of(
                    self.rest().subrange(RECORD_SIZE * i, RECORD_SIZE * i + RECORD_SIZE),
                ),
    {
        let mut it = self;
        let ghost all = self.rest();
        let mut links: Vec<Cyberlink> = Vec::new();
        assert(all.skip(0) =~= all);
        loop
            invariant
                it.wf(),
                128 * links.len() <= all.len(),
                it.rest() == all.skip(128 * links.len()),
                forall|i: int|
                    0 <= i < links.len() ==> (#[trigger] links[i]).is_decoding_of(
                        all.subrange(128 * i, 128 * i + 128),
                    ),
            ensures
                links.len() == all.len() / 128,
                forall|i: int|
                    0 <= i < links.len() ==> (#[trigger] links[i]).is_decoding_of(
                        all.subrange(128 * i, 128 * i + 128),
                    ),
            decreases it.rest().len(),
        {
            let ghost n = links.len() as int;
            match it.next() {
                Some(link) => {
                    proof {
                        assert(all.skip(128 * n).subrange(0, 128) =~= all.subrange(
                            128 * n,
                            128 * n + 128,
                        ));
                        assert(all.skip(128 * n).skip(128) =~= all.skip(128 * (n + 1)));
                    }
                    links.push(link);
                },
                None => {
                    break;
                },
            }
        }
        links
    }
}

/// The records of all links, one after the other.
pub open spec fn records(links: Seq<Cyberlink>) -> Seq<u8>
    decreases links.len(),
{
    if links.len() == 0 {
        Seq::empty()
    } else {
        records(links.drop_last()) + links.last().record()
    }
}

/// Block `i` of a list of `n` blocks with one more at its end.
proof fn lemma_appended_block(head: Seq<u8>, tail: Seq<u8>, n: int, i: int)
    requires
        head.len() == 128 * n,
        tail.len() == 128,
        0 <= i <= n,
    ensures
        (head + tail).subrange(128 * i, 128 * i + 128) == if i < n {
            head.subrange(128 * i, 128 * i + 128)
        } else {
            tail
        },
{
    let block = (head + tail).subrange(128 * i, 128 * i + 128);
    if i < n {
        assert(block =~= head.subrange(128 * i, 128 * i + 128));
    } else {
        assert(block =~= tail);
    }
}

/// Record `i` of the records of all links.
proof fn lemma_record_at(links: Seq<Cyberlink>, i: int)
    requires
        0 <= i < links.len(),
    ensures
        records(links).len() == 128 * links.len(),
        records(links).subrange(128 * i, 128 * i + 128) == links[i].record(),
    decreases links.len(),
{
    let before = links.drop_last();
    assert(links.last().record().len() == 128) by {
        law_record_roundtrip(links.last());
    }
    if before.len() > 0 {
        lemma_record_at(before, if i < before.len() { i } else { 0 });
    }
    lemma_appended_block(records(before), links.last().record(), before.len() as int, i);
}

/// Law: the links that are read from the records of links are those links, in order.
pub proof fn law_links_read_back(links: Seq<Cyberlink>, read: Seq<Cyberlink>)
    requires
        read.len() == records(links).len() / (RECORD_SIZE as nat),
        forall|i: int|
            0 <= i < read.len() ==> (#[trigger] read[i]).is_decoding_of(
                records(links).subrange(RECORD_SIZE * i, RECORD_SIZE * i + RECORD_SIZE),
            ),
    ensures
        read == links,
{
    if links.len() > 0 {
        lemma_record_at(links, 0);
    }
    assert(read.len() == links.len());
    assert forall|i: int| 0 <= i < links.len() implies read[i] == links[i] by {
        lemma_record_at(links, i);
        law_record_roundtrip(links[i]);
        law_decoding_is_unique(links[i].record(), read[i], links[i]);
    }
    assert(read =~= links);
}

// ── frontmatter ──────────────────────────────────────────────────────────────

/// What the frontmatter says of the file.
pub struct Frontmatter {
    pub cyb: CybMeta,
    pub files: Vec<FileEntry>,
}

/// The `cyb` table of the frontmatter.
pub struct CybMeta {
    pub types: Vec<String>,
    pub name: String,
}

/// One section announced by the frontmatter.
pub struct FileEntry {
    pub name: String,
    pub format: String,
    pub size: Option<u64>,
}

/// A section delimiter, `\n~~~`, stands at `i`.
pub open spec fn delimiter_at(b: Seq<u8>, i: int) -> bool {
    0 <= i && i + 4 <= b.len() && b[i] == 0x0a && b[i + 1] == 0x7e && b[i + 2] == 0x7e && b[i + 3]
        == 0x7e
}

/// `i` is where the first delimiter from `from` on stands.
pub open spec fn is_first_delimiter(b: Seq<u8>, from: int, i: int) -> bool {
    from <= i && delimiter_at(b, i) && forall|j: int| from <= j < i ==> !#[trigger] delimiter_at(b, j)
}

/// No delimiter stands at `from` or after it.
pub open spec fn no_delimiter(b: Seq<u8>, from: int) -> bool {
    forall|j: int| from <= j ==> !#[trigger] delimiter_at(b, j)
}

fn find_delimiter(bytes: &[u8], start: usize) -> (r: Option<usize>)
    ensures
        match r {
            Some(i) => is_first_delimiter(bytes@, start as int, i as int),
            None => no_delimiter(bytes@, start as int),
        },
{
    if bytes.len() < 4 {
        return None;
    }
    let mut i: usize = start;
    while i <= bytes.len() - 4
        invariant
            4 <= bytes.len(),
            start <= i,
            start <= bytes.len() - 4 ==> i <= bytes.len() - 3,
            forall|j: int| start <= j < i ==> !#[trigger] delimiter_at(bytes@, j),
        decreases bytes.len() - i,
    {
        if bytes[i] == 0x0a && bytes[i + 1] == 0x7e && bytes[i + 2] == 0x7e && bytes[i + 3] == 0x7e {
            return Some(i);
        }
        i = i + 1;
    }
    None
}

/// Splits `bytes` at the first delimiter: the frontmatter, its final newline
/// included, and the offset of the body.
pub fn split_frontmatter(bytes: &[u8]) -> (r: Result<(&str, usize)>)
    ensures
        no_delimiter(bytes@, 0) ==> crate::error::invalid_because(r, "no `~~~` delimiter found"@),
        forall|i: int| #[trigger]
            is_first_delimiter(bytes@, 0, i) ==> {
                let front = bytes@.subrange(0, i + 1);
                if valid_utf8(front) {
                    r matches Ok((s, body)) && encode_utf8(s@) == front && body == i + 1
                } else {
                    crate::error::invalid_because(
                        r,
                        "non-utf8 frontmatter: "@ + crate::text::utf8_error_text(front),
                    )
                }
            },
{
    match find_delimiter(bytes, 0) {
        Some(i) => {
            proof {
                assert forall|k: int| #[trigger] is_first_delimiter(bytes@, 0, k) implies k == i by {
                    if k < i {
                        assert(delimiter_at(bytes@, k));
                    } else if i < k {
                        assert(delimiter_at(bytes@, i as int));
                    }
                }
                assert(delimiter_at(bytes@, i as int));
                assert(i + 4 <= bytes.len());
            }
            match utf8_text(&bytes[0..i + 1]) {
                Ok(s) => Ok((s, i + 1)),
                Err(e) => Err(
                    MirError::InvalidGraph(
                        String::from_str("non-utf8 frontmatter: ").concat(e.as_str()),
                    ),
                ),
            }
        },
        None => {
            proof {
                assert forall|k: int| !#[trigger] is_first_delimiter(bytes@, 0, k) by {
                    if is_first_delimiter(bytes@, 0, k) {
                        assert(delimiter_at(bytes@, k));
                    }
                }
            }
            Err(MirError::InvalidGraph(String::from_str("no `~~~` delimiter found")))
        },
    }
}

// ── sections ─────────────────────────────────────────────────────────────────

/// Where an unsized section that starts at `start` ends: before the next delimiter, or
/// with the file.
pub open spec fn text_end(b: Seq<u8>, start: int) -> int {
    if exists|i: int| is_first_delimiter(b, start, i) {
        choose|i: int| is_first_delimiter(b, start, i)
    } else {
        b.len() as int
    }
}

fn find_text_end(bytes: &[u8], start: usize) -> (end: usize)
    ensures
        end == text_end(bytes@, start as int),
{
    match find_delimiter(bytes, start) {
        Some(i) => {
            proof {
                let k = text_end(bytes@, start as int);
                assert(is_first_delimiter(bytes@, start as int, k));
                assert(delimiter_at(bytes@, k));
                assert(delimiter_at(bytes@, i as int));
            }
            i
        },
        None => {
            proof {
                if exists|i: int| is_first_delimiter(bytes@, start as int, i) {
                    let i = choose|i: int| is_first_delimiter(bytes@, start as int, i);
                    assert(delimiter_at(bytes@, i));
                }
            }
            bytes.len()
        },
    }
}

/// The line that opens the section `name`.
pub open spec fn header_text(name: Seq<char>) -> Seq<char> {
    "~~~"@ + name + "\n"@
}

/// Law: an unsized section ends right before a line that starts with three tildes, or with the
/// file, and no such line starts inside it.
pub proof fn law_unsized_sections_end_at_a_delimiter(b: Seq<u8>, start: int, i: int)
    requires
        0 <= start <= b.len(),
    ensures
        start <= text_end(b, start) <= b.len(),
        ({
            let end = text_end(b, start);
            end == b.len() || (end + 4 <= b.len() && b[end] == 0x0a && b[end + 1] == 0x7e && b[end
                + 2] == 0x7e && b[end + 3] == 0x7e)
        }),
        start <= i < text_end(b, start) ==> !(i + 4 <= b.len() && b[i] == 0x0a && b[i + 1] == 0x7e
            && b[i + 2] == 0x7e && b[i + 3] == 0x7e),
{
    let end = text_end(b, start);
    if exists|k: int| is_first_delimiter(b, start, k) {
        assert(is_first_delimiter(b, start, end));
        assert(delimiter_at(b, end));
        if start <= i < end {
            assert(!delimiter_at(b, i));
        }
    } else if start <= i && delimiter_at(b, i) {
        lemma_some_first_delimiter(b, start, i);
    }
}

/// Where a delimiter stands, there is a first one.
proof fn lemma_some_first_delimiter(b: Seq<u8>, start: int, i: int)
    requires
        start <= i,
        delimiter_at(b, i),
    ensures
        exists|k: int| is_first_delimiter(b, start, k),
    decreases i - start,
{
    if exists|j: int| start <= j < i && #[trigger] delimiter_at(b, j) {
        let j = choose|j: int| start <= j < i && #[trigger] delimiter_at(b, j);
        lemma_some_first_delimiter(b, start, j);
    } else {
        assert(is_first_delimiter(b, start, i));
    }
}

/// The header of `entry` stands at `cur`.
pub open spec fn header_at(b: Seq<u8>, cur: int, entry: FileEntry) -> bool {
    let header = encode_utf8(header_text(entry.name@));
    cur + header.len() <= b.len() && b.subrange(cur, cur + header.len()) == header
}

/// The first byte of the section whose header stands at `cur`.
pub open spec fn section_start(cur: int, entry: FileEntry) -> int {
    cur + encode_utf8(header_text(entry.name@)).len()
}

/// The end of the section whose header stands at `cur`.
pub open spec fn section_end(b: Seq<u8>, cur: int, entry: FileEntry) -> int {
    match entry.size {
        Some(size) => section_start(cur, entry) + size,
        None => text_end(b, section_start(cur, entry)),
    }
}

/// Where the next header stands: after the section and one newline, if there is one.
pub open spec fn after_section(b: Seq<u8>, end: int) -> int {
    if end < b.len() && b[end] == 0x0a {
        end + 1
    } else {
        end
    }
}

/// Law: between a section and the next header at most one newline is passed over, and nothing
/// else; a sized section is as long as announced.
pub proof fn law_sections_follow_each_other(b: Seq<u8>, cur: int, entry: FileEntry)
    ensures
        ({
            let end = section_end(b, cur, entry);
            let next = after_section(b, end);
            &&& next == end || next == end + 1
            &&& next == end + 1 <==> end < b.len() && b[end] == 0x0a
            &&& entry.size is Some ==> end - section_start(cur, entry) == entry.size.unwrap()
        }),
{
}

/// The header of section `k` is looked for at this offset, the sections before it being
/// in order.
pub open spec fn cursor(b: Seq<u8>, body_start: int, entries: Seq<FileEntry>, k: nat) -> int
    decreases k,
{
    if k == 0 {
        body_start
    } else {
        let prev = (k - 1) as nat;
        after_section(
            b,
            section_end(b, cursor(b, body_start, entries, prev), entries[prev as int]),
        )
    }
}

/// Section `k` is in order: its header stands where it is looked for, and it ends inside
/// the file.
pub open spec fn section_ok(b: Seq<u8>, body_start: int, entries: Seq<FileEntry>, k: int) -> bool {
    let cur = cursor(b, body_start, entries, k as nat);
    header_at(b, cur, entries[k]) && section_end(b, cur, entries[k]) <= b.len()
}

/// The byte range of section `k`.
pub open spec fn section_range(b: Seq<u8>, body_start: int, entries: Seq<FileEntry>, k: int) -> (
    int,
    int,
) {
    let cur = cursor(b, body_start, entries, k as nat);
    (section_start(cur, entries[k]), section_end(b, cur, entries[k]))
}

/// The ranges of the first `count` sections by name; of two sections with one name the
/// later one counts.
pub open spec fn section_map(
    b: Seq<u8>,
    body_start: int,
    entries: Seq<FileEntry>,
    count: nat,
) -> Map<Seq<char>, (int, int)>
    decreases count,
{
    if count == 0 {
        Map::empty()
    } else {
        let k = count - 1;
        section_map(b, body_start, entries, k as nat).insert(
            entries[k].name@,
            section_range(b, body_start, entries, k),
        )
    }
}

/// What is said of section `k` when it is not in order.
pub open spec fn section_fault(b: Seq<u8>, body_start: int, entries: Seq<FileEntry>, k: int) -> Seq<
    char,
> {
    let cur = cursor(b, body_start, entries, k as nat);
    if header_at(b, cur, entries[k]) {
        "section `"@ + entries[k].name@ + "` extends past EOF"@
    } else {
        "expected `"@ + crate::text::trimmed_end(header_text(entries[k].name@)) + "` at byte "@
            + crate::text::decimal_text(cur as nat)
    }
}

struct Section {
    name: String,
    start: usize,
    end: usize,
}

/// Byte ranges by section name.
pub struct Sections {
    entries: Vec<Section>,
}

impl Sections {
    spec fn listed(entries: Seq<Section>, name: Seq<char>, k: int) -> bool {
        0 <= k < entries.len() && entries[k].name@ == name
    }

    /// The ranges by name.
    pub closed spec fn view(&self) -> Map<Seq<char>, (int, int)> {
        Map::new(
            |name: Seq<char>| exists|k: int| Self::listed(self.entries@, name, k),
            |name: Seq<char>|
                {
                    let k = choose|k: int| Self::listed(self.entries@, name, k);
                    (self.entries@[k].start as int, self.entries@[k].end as int)
                },
        )
    }

    /// No name is listed twice.
    pub closed spec fn wf(&self) -> bool {
        forall|i: int, j: int|
            0 <= i < j < self.entries.len() ==> (#[trigger] self.entries[i]).name@ != (
            #[trigger] self.entries[j]).name@
    }

    fn new() -> (s: Self)
        ensures
            s.wf(),
            s@ == Map::<Seq<char>, (int, int)>::empty(),
    {
        let s = Sections { entries: Vec::new() };
        proof {
            assert forall|name: Seq<char>| !#[trigger] s@.dom().contains(name) by {
                if s@.dom().contains(name) {
                    let k = choose|k: int| Self::listed(s.entries@, name, k);
                    assert(Self::listed(s.entries@, name, k));
                }
            }
            assert(s@ =~= Map::<Seq<char>, (int, int)>::empty());
        }
        s
    }

    proof fn lemma_lookup(&self, k: int)
        requires
            self.wf(),
            0 <= k < self.entries.len(),
        ensures
            self@.dom().contains(self.entries[k].name@),
            self@[self.entries[k].name@] == (self.entries[k].start as int, self.entries[k].end as int),
    {
        let name = self.entries[k].name@;
        assert(Self::listed(self.entries@, name, k));
        let c = choose|c: int| Self::listed(self.entries@, name, c);
        assert(Self::listed(self.entries@, name, c));
        if c < k {
            assert(self.entries[c].name@ != self.entries[k].name@);
        } else if k < c {
            assert(self.entries[k].name@ != self.entries[c].name@);
        }
    }

    fn position(&self, name: &str) -> (r: Option<usize>)
        requires
            self.wf(),
        ensures
            match r {
                Some(k) => k < self.entries.len() && self.entries[k as int].name@ == name@,
                None => forall|k: int| !Self::listed(self.entries@, name@, k),
            },
    {
        let mut k: usize = 0;
        while k < self.entries.len()
            invariant
                k <= self.entries.len(),
                forall|j: int| 0 <= j < k ==> (#[trigger] self.entries[j]).name@ != name@,
            decreases self.entries.len() - k,
        {
            if same_text(self.entries[k].name.as_str(), name) {
                return Some(k);
            }
            k = k + 1;
        }
        None
    }

    /// The byte range of the section `name`, if there is one.
    pub fn get(&self, name: &str) -> (r: Option<(usize, usize)>)
        requires
            self.wf(),
        ensures
            match r {
                Some((start, end)) => self@.dom().contains(name@) && self@[name@] == (
                    start as int,
                    end as int,
                ),
                None => !self@.dom().contains(name@),
            },
    {
        match self.position(name) {
            Some(k) => {
                proof {
                    self.lemma_lookup(k as int);
                }
                Some((self.entries[k].start, self.entries[k].end))
            },
            None => None,
        }
    }

    fn insert(&mut self, name: &str, start: usize, end: usize)
        requires
            old(self).wf(),
        ensures
            final(self).wf(),
            final(self)@ == old(self)@.insert(name@, (start as int, end as int)),
    {
        let ghost before = *self;
        let entry = Section { name: name.to_owned(), start, end };
        let at = self.position(name);
        match at {
            Some(k) => {
                self.entries.set(k, entry);
            },
            None => {
                self.entries.push(entry);
            },
        }
        proof {
            let slot = match at {
                Some(k) => k as int,
                None => before.entries.len() as int,
            };
            assert(self.entries@[slot] == entry);
            assert forall|j: int| 0 <= j < before.entries.len() && j != slot implies self.entries@[j]
                == before.entries@[j] && self.entries@[j].name@ != name@ by {
                if at is None {
                    assert(!Self::listed(before.entries@, name@, j));
                } else if j < slot {
                    assert(before.entries[j].name@ != before.entries[slot].name@);
                } else {
                    assert(before.entries[slot].name@ != before.entries[j].name@);
                }
            }
            assert(self.wf());
            let after = before@.insert(name@, (start as int, end as int));
            assert forall|n: Seq<char>| #[trigger] self@.dom().contains(n) == after.dom().contains(
                n,
            ) && (self@.dom().contains(n) ==> self@[n] == after[n]) by {
                if n == name@ {
                    self.lemma_lookup(slot);
                } else {
                    if self@.dom().contains(n) {
                        let k = choose|k: int| Self::listed(self.entries@, n, k);
                        assert(Self::listed(self.entries@, n, k));
                        self.lemma_lookup(k);
                        before.lemma_lookup(k);
                    }
                    if before@.dom().contains(n) {
                        let k = choose|k: int| Self::listed(before.entries@, n, k);
                        assert(Self::listed(before.entries@, n, k));
                        self.lemma_lookup(k);
                    }
                }
            }
            assert(self@ =~= after);
        }
    }
}

/// Section `k` is the first that is not in order.
pub open spec fn is_first_fault(
    b: Seq<u8>,
    body_start: int,
    entries: Seq<FileEntry>,
    k: int,
) -> bool {
    &&& 0 <= k < entries.len()
    &&& !section_ok(b, body_start, entries, k)
    &&& forall|j: int| 0 <= j < k ==> #[trigger] section_ok(b, body_start, entries, j)
}

/// Every announced section is in order.
pub open spec fn all_sections_ok(b: Seq<u8>, body_start: int, entries: Seq<FileEntry>) -> bool {
    forall|k: int| 0 <= k < entries.len() ==> #[trigger] section_ok(b, body_start, entries, k)
}

proof fn lemma_first_fault_unique(b: Seq<u8>, body_start: int, entries: Seq<FileEntry>, k: int)
    requires
        is_first_fault(b, body_start, entries, k),
    ensures
        !all_sections_ok(b, body_start, entries),
        forall|j: int| #[trigger] is_first_fault(b, body_start, entries, j) ==> j == k,
{
    assert forall|j: int| #[trigger] is_first_fault(b, body_start, entries, j) implies j == k by {
        if j < k {
            assert(section_ok(b, body_start, entries, j));
        } else if k < j {
            assert(section_ok(b, body_start, entries, k));
        }
    }
}

/// The end that `text_end` names is not before `start` and inside the file.
proof fn lemma_text_end_bounds(b: Seq<u8>, start: int)
    requires
        0 <= start <= b.len(),
    ensures
        start <= text_end(b, start) <= b.len(),
{
    if exists|i: int| is_first_delimiter(b, start, i) {
        let i = text_end(b, start);
        assert(is_first_delimiter(b, start, i));
        assert(delimiter_at(b, i));
    }
}

/// Locates the sections that `entries` announces in the body of the file.
pub fn index_sections(bytes: &[u8], body_start: usize, entries: &[FileEntry]) -> (r: Result<Sections>)
    requires
        body_start <= bytes.len(),
    ensures
        all_sections_ok(bytes@, body_start as int, entries@) ==> {
            &&& r is Ok
            &&& r->Ok_0.wf()
            &&& r->Ok_0@ == section_map(bytes@, body_start as int, entries@, entries@.len())
        },
        forall|k: int| #[trigger]
            is_first_fault(bytes@, body_start as int, entries@, k) ==> crate::error::invalid_because(
                r,
                section_fault(bytes@, body_start as int, entries@, k),
            ),
        r is Ok ==> all_sections_ok(bytes@, body_start as int, entries@),
{
    let mut sections = Sections::new();
    let mut cur: usize = body_start;
    let mut k: usize = 0;
    while k < entries.len()
        invariant
            k <= entries.len(),
            cur <= bytes.len(),
            cur == cursor(bytes@, body_start as int, entries@, k as nat),
            sections.wf(),
            sections@ == section_map(bytes@, body_start as int, entries@, k as nat),
            forall|j: int|
                0 <= j < k ==> #[trigger] section_ok(bytes@, body_start as int, entries@, j),
        decreases entries.len() - k,
    {
        let ghost fault = is_first_fault(bytes@, body_start as int, entries@, k as int);
        proof {
            if fault {
                lemma_first_fault_unique(bytes@, body_start as int, entries@, k as int);
            }
        }
        let entry = &entries[k];
        let header = String::from_str("~~~").concat(entry.name.as_str()).concat("\n");
        let opening = header.as_str().as_bytes();
        if !matches_at(bytes, cur, opening) {
            assert(!section_ok(bytes@, body_start as int, entries@, k as int));
            let at = decimal(cur as u64);
            return Err(
                MirError::InvalidGraph(
                    String::from_str("expected `").concat(header.as_str().trim_end()).concat(
                        "` at byte ",
                    ).concat(at.as_str()),
                ),
            );
        }
        let start: usize = cur + opening.len();
        let past_end: bool = match entry.size {
            Some(size) => size > (bytes.len() - start) as u64,
            None => false,
        };
        if past_end {
            assert(!section_ok(bytes@, body_start as int, entries@, k as int));
            return Err(
                MirError::InvalidGraph(
                    String::from_str("section `").concat(entry.name.as_str()).concat(
                        "` extends past EOF",
                    ),
                ),
            );
        }
        proof {
            lemma_text_end_bounds(bytes@, start as int);
        }
        let end: usize = match entry.size {
            Some(size) => start + size as usize,
            None => find_text_end(bytes, start),
        };
        assert(section_ok(bytes@, body_start as int, entries@, k as int));
        sections.insert(entry.name.as_str(), start, end);
        cur = end;
        if cur < bytes.len() && bytes[cur] == 0x0a {
            cur = cur + 1;
        }
        k = k + 1;
    }
    proof {
        assert forall|j: int| !#[trigger] is_first_fault(bytes@, body_start as int, entries@, j) by {
            if 0 <= j < entries.len() {
                assert(section_ok(bytes@, body_start as int, entries@, j));
            }
        }
    }
    Ok(sections)
}

/// Every range that the index of a sound body names lies inside the file.
proof fn lemma_section_map_bounds(
    b: Seq<u8>,
    body_start: int,
    entries: Seq<FileEntry>,
    count: nat,
    name: Seq<char>,
)
    requires
        0 <= body_start <= b.len(),
        count <= entries.len(),
        all_sections_ok(b, body_start, entries),
        section_map(b, body_start, entries, count).dom().contains(name),
    ensures
        ({
            let (start, end) = section_map(b, body_start, entries, count)[name];
            0 <= start <= end <= b.len()
        }),
    decreases count,
{
    let k = count - 1;
    if entries[k].name@ == name {
        lemma_cursor_bounds(b, body_start, entries, k as nat);
        assert(section_ok(b, body_start, entries, k));
        lemma_text_end_bounds(b, section_range(b, body_start, entries, k).0);
    } else {
        lemma_section_map_bounds(b, body_start, entries, k as nat, name);
    }
}

proof fn lemma_cursor_bounds(b: Seq<u8>, body_start: int, entries: Seq<FileEntry>, k: nat)
    requires
        0 <= body_start <= b.len(),
        k <= entries.len(),
        all_sections_ok(b, body_start, entries),
    ensures
        0 <= cursor(b, body_start, entries, k) <= b.len(),
    decreases k,
{
    if k > 0 {
        let prev = (k - 1) as nat;
        lemma_cursor_bounds(b, body_start, entries, prev);
        assert(section_ok(b, body_start, entries, prev as int));
        let cur = cursor(b, body_start, entries, prev);
        lemma_text_end_bounds(b, section_start(cur, entries[prev as int]));
    }
}

/// A file body: for each entry its header line and its content, with a newline between
/// sections.
pub open spec fn written_body(entries: Seq<FileEntry>, contents: Seq<Seq<u8>>) -> Seq<u8>
    decreases entries.len(),
{
    if entries.len() == 0 {
        Seq::empty()
    } else {
        let before = written_body(entries.drop_last(), contents.drop_last());
        let gap = if entries.len() == 1 {
            Seq::empty()
        } else {
            seq![0x0au8]
        };
        before + gap + encode_utf8(header_text(entries.last().name@)) + contents.last()
    }
}

/// Each entry announces the length of its content, or none; without a length, the content
/// holds no delimiter.
pub open spec fn is_writable(entries: Seq<FileEntry>, contents: Seq<Seq<u8>>) -> bool {
    &&& entries.len() == contents.len()
    &&& forall|k: int|
        0 <= k < entries.len() ==> match (#[trigger] entries[k]).size {
            Some(size) => size == contents[k].len(),
            None => no_delimiter(contents[k], 0),
        }
}

/// A header line starts with three tildes.
proof fn lemma_header_starts(name: Seq<char>)
    ensures
        ({
            let header = encode_utf8(header_text(name));
            header.len() >= 3 && header[0] == 0x7e && header[1] == 0x7e && header[2] == 0x7e
        }),
{
    let text = header_text(name);
    reveal_strlit("~~~");
    let first = text.drop_first();
    let second = first.drop_first();
    assert(text[0] == '~' && first[0] == '~' && second[0] == '~');
    assert(encode_scalar('~' as u32) == seq![0x7eu8]) by {
        assert(0x7eu32 & 0x7f == 0x7e) by (bit_vector);
    }
    assert(encode_utf8(text) == encode_scalar('~' as u32) + encode_utf8(first));
    assert(encode_utf8(first) == encode_scalar('~' as u32) + encode_utf8(second));
    assert(encode_utf8(second) == encode_scalar('~' as u32) + encode_utf8(second.drop_first()));
}

/// The first `k` sections of a body are a prefix of it.
proof fn lemma_body_prefix(entries: Seq<FileEntry>, contents: Seq<Seq<u8>>, k: int)
    requires
        entries.len() == contents.len(),
        0 <= k <= entries.len(),
    ensures
        written_body(entries.take(k), contents.take(k)).is_prefix_of(
            written_body(entries, contents),
        ),
    decreases entries.len(),
{
    let whole = written_body(entries, contents);
    if k == entries.len() {
        assert(entries.take(k) =~= entries);
        assert(contents.take(k) =~= contents);
        assert(whole.take(whole.len() as int) =~= whole);
    } else {
        let e = entries.drop_last();
        let c = contents.drop_last();
        lemma_body_prefix(e, c, k);
        assert(e.take(k) =~= entries.take(k));
        assert(c.take(k) =~= contents.take(k));
        let head = written_body(entries.take(k), contents.take(k));
        let most = written_body(e, c);
        assert(whole.take(head.len() as int) =~= most.take(head.len() as int));
    }
}

/// Section `k` of a body: where its header and its content stand, and what follows.
proof fn lemma_body_section(
    file: Seq<u8>,
    front: Seq<u8>,
    entries: Seq<FileEntry>,
    contents: Seq<Seq<u8>>,
    k: int,
)
    requires
        entries.len() == contents.len(),
        file == front + written_body(entries, contents),
        0 <= k < entries.len(),
    ensures
        ({
            let header = encode_utf8(header_text(entries[k].name@));
            let after = written_body(entries.take(k + 1), contents.take(k + 1));
            let end = (front.len() + after.len()) as int;
            let start = end - contents[k].len();
            let cur = start - header.len();
            &&& cur == front.len() + written_body(entries.take(k), contents.take(k)).len() + if k
                == 0 {
                0int
            } else {
                1
            }
            &&& 0 <= cur && end <= file.len()
            &&& file.subrange(cur, start) == header
            &&& file.subrange(start, end) == contents[k]
            &&& k + 1 == entries.len() ==> end == file.len()
            &&& k + 1 < entries.len() ==> delimiter_at(file, end)
        }),
{
    let header = encode_utf8(header_text(entries[k].name@));
    let before = written_body(entries.take(k), contents.take(k));
    let after = written_body(entries.take(k + 1), contents.take(k + 1));
    let body = written_body(entries, contents);
    assert(entries.take(k + 1).drop_last() =~= entries.take(k));
    assert(contents.take(k + 1).drop_last() =~= contents.take(k));
    lemma_body_prefix(entries, contents, k + 1);
    assert forall|i: int| 0 <= i < after.len() implies file[front.len() + i] == after[i] by {
        assert(body.take(after.len() as int)[i] == body[i]);
    }
    let gap: int = if k == 0 {
        0
    } else {
        1
    };
    let at = before.len() + gap;
    let from = at + header.len();
    let end = (front.len() + after.len()) as int;
    let found = file.subrange(front.len() + at, front.len() + from);
    assert(found =~= header) by {
        assert forall|i: int| 0 <= i < header.len() implies found[i] == header[i] by {
            assert(file[front.len() + (at + i)] == after[at + i]);
        }
    }
    let content = file.subrange(front.len() + from, end);
    assert(content =~= contents[k]) by {
        assert forall|i: int| 0 <= i < contents[k].len() implies content[i] == contents[k][i] by {
            assert(file[front.len() + (from + i)] == after[from + i]);
        }
    }
    if k + 1 == entries.len() {
        assert(entries.take(k + 1) =~= entries);
        assert(contents.take(k + 1) =~= contents);
    } else {
        let next = encode_utf8(header_text(entries[k + 1].name@));
        let more = written_body(entries.take(k + 2), contents.take(k + 2));
        assert(entries.take(k + 2).drop_last() =~= entries.take(k + 1));
        assert(contents.take(k + 2).drop_last() =~= contents.take(k + 1));
        lemma_body_prefix(entries, contents, k + 2);
        lemma_header_starts(entries[k + 1].name@);
        assert forall|i: int| 0 <= i < 4 implies #[trigger] file[end + i] == more[after.len() + i] by {
            assert(body.take(more.len() as int)[after.len() + i] == body[after.len() + i]);
        }
        assert(file[end + 0] == 0x0a);
        assert(file[end + 1] == next[0] && file[end + 2] == next[1] && file[end + 3] == next[2]);
    }
}

/// The reader finds section `k` of a body where it was written.
proof fn lemma_section_found(
    file: Seq<u8>,
    front: Seq<u8>,
    entries: Seq<FileEntry>,
    contents: Seq<Seq<u8>>,
    k: int,
)
    requires
        is_writable(entries, contents),
        file == front + written_body(entries, contents),
        0 <= k < entries.len(),
    ensures
        section_ok(file, front.len() as int, entries, k),
        file.subrange(
            section_range(file, front.len() as int, entries, k).0,
            section_range(file, front.len() as int, entries, k).1,
        ) == contents[k],
        section_range(file, front.len() as int, entries, k).1 == front.len() + written_body(
            entries.take(k + 1),
            contents.take(k + 1),
        ).len(),
    decreases k,
{
    lemma_body_section(file, front, entries, contents, k);
    let header = encode_utf8(header_text(entries[k].name@));
    let after = written_body(entries.take(k + 1), contents.take(k + 1));
    let end = (front.len() + after.len()) as int;
    let start = end - contents[k].len();
    let cur = cursor(file, front.len() as int, entries, k as nat);
    if k > 0 {
        lemma_section_found(file, front, entries, contents, k - 1);
        lemma_body_section(file, front, entries, contents, k - 1);
        assert(entries.take(k - 1 + 1) =~= entries.take(k));
    } else {
        assert(written_body(entries.take(0), contents.take(0)) =~= Seq::<u8>::empty());
    }
    assert(cur == start - header.len());
    assert(section_start(cur, entries[k]) == start);
    if entries[k].size is None {
        assert forall|j: int| start <= j < end implies !#[trigger] delimiter_at(file, j) by {
            if delimiter_at(file, j) {
                if j + 4 <= end {
                    assert(file.subrange(start, end) == contents[k]);
                    let i = j - start;
                    assert(file[j] == contents[k][i]);
                    assert(file[j + 1] == contents[k][i + 1]);
                    assert(file[j + 2] == contents[k][i + 2]);
                    assert(file[j + 3] == contents[k][i + 3]);
                    assert(delimiter_at(contents[k], i));
                }
            }
        }
        if k + 1 < entries.len() {
            assert(is_first_delimiter(file, start, end));
            let found = text_end(file, start);
            assert(is_first_delimiter(file, start, found));
            assert(delimiter_at(file, found) && delimiter_at(file, end));
        } else {
            assert forall|i: int| !is_first_delimiter(file, start, i) by {
                if is_first_delimiter(file, start, i) {
                    assert(delimiter_at(file, i));
                }
            }
        }
    }
    assert(section_end(file, cur, entries[k]) == end);
}

/// The last section of a name is the one that the name finds.
proof fn lemma_last_section_counts(
    b: Seq<u8>,
    body_start: int,
    entries: Seq<FileEntry>,
    count: nat,
    k: int,
)
    requires
        0 <= k < count <= entries.len(),
        forall|j: int| k < j < count ==> (#[trigger] entries[j]).name@ != entries[k].name@,
    ensures
        section_map(b, body_start, entries, count).dom().contains(entries[k].name@),
        section_map(b, body_start, entries, count)[entries[k].name@] == section_range(
            b,
            body_start,
            entries,
            k,
        ),
    decreases count,
{
    if k < count - 1 {
        assert(entries[count - 1].name@ != entries[k].name@);
        lemma_last_section_counts(b, body_start, entries, (count - 1) as nat, k);
    }
}

/// Law: reading the sections of a written file gives back what was written, for any front
/// part, any names and any contents, whether sizes are announced or not. Every section is in
/// order, and a name finds the content of the last section of that name.
pub proof fn law_sections_read_back(
    front: Seq<u8>,
    entries: Seq<FileEntry>,
    contents: Seq<Seq<u8>>,
    k: int,
)
    requires
        is_writable(entries, contents),
        0 <= k < entries.len(),
    ensures
        ({
            let file = front + written_body(entries, contents);
            let found = section_map(file, front.len() as int, entries, entries.len());
            let (start, end) = section_range(file, front.len() as int, entries, k);
            &&& all_sections_ok(file, front.len() as int, entries)
            &&& file.subrange(start, end) == contents[k]
            &&& (forall|j: int| k < j < entries.len() ==> (#[trigger] entries[j]).name@ != entries[k].name@)
                ==> found.dom().contains(entries[k].name@) && found[entries[k].name@] == (start, end)
        }),
{
    let file = front + written_body(entries, contents);
    assert forall|j: int| 0 <= j < entries.len() implies #[trigger] section_ok(
        file,
        front.len() as int,
        entries,
        j,
    ) by {
        lemma_section_found(file, front, entries, contents, j);
    }
    lemma_section_found(file, front, entries, contents, k);
    if forall|j: int| k < j < entries.len() ==> (#[trigger] entries[j]).name@ != entries[k].name@ {
        lemma_last_section_counts(file, front.len() as int, entries, entries.len(), k);
    }
}

/// Law: the frontmatter of a written file ends where its body starts, if it ends with a
/// newline and holds no delimiter itself.
pub proof fn law_frontmatter_ends_at_body(
    front: Seq<u8>,
    entries: Seq<FileEntry>,
    contents: Seq<Seq<u8>>,
)
    requires
        entries.len() == contents.len(),
        entries.len() > 0,
        front.len() > 0,
        front.last() == 0x0a,
        no_delimiter(front, 0),
    ensures
        is_first_delimiter(front + written_body(entries, contents), 0, front.len() - 1),
{
    let file = front + written_body(entries, contents);
    let n = front.len() as int;
    lemma_body_section(file, front, entries, contents, 0);
    lemma_header_starts(entries[0].name@);
    let header = encode_utf8(header_text(entries[0].name@));
    assert(written_body(entries.take(0), contents.take(0)) =~= Seq::<u8>::empty());
    assert forall|i: int| 0 <= i < 3 implies #[trigger] file[n + i] == 0x7e by {
        assert(file.subrange(n, n + header.len())[i] == header[i]);
    }
    assert(file[n + 0] == 0x7e && file[n + 1] == 0x7e && file[n + 2] == 0x7e);
    assert(delimiter_at(file, n - 1));
    assert forall|j: int| 0 <= j < n - 1 implies !#[trigger] delimiter_at(file, j) by {
        if delimiter_at(file, j) {
            if j + 4 <= n {
                assert(delimiter_at(front, j));
            } else {
                assert(file[n - 1] == 0x0a);
            }
        }
    }
}

// ── GraphSnapshot ────────────────────────────────────────────────────────────

/// A `.graph` file whose sections have been located.
pub struct GraphSnapshot<'a> {
    bytes: &'a [u8],
    name: String,
    sections: Sections,
}

impl<'a> GraphSnapshot<'a> {
    /// The bytes of the file.
    pub closed spec fn file(&self) -> Seq<u8> {
        self.bytes@
    }

    /// The graph's name.
    pub closed spec fn title(&self) -> Seq<char> {
        self.name@
    }

    /// The byte range of each section.
    pub closed spec fn ranges(&self) -> Map<Seq<char>, (int, int)> {
        self.sections@
    }

    /// Every section lies inside the file.
    pub closed spec fn wf(&self) -> bool {
        &&& self.sections.wf()
        &&& forall|name: Seq<char>| #[trigger]
            self.sections@.dom().contains(name) ==> 0 <= self.sections@[name].0
                <= self.sections@[name].1 <= self.bytes@.len()
    }

    /// The content of the section `name`.
    pub open spec fn content(&self, name: Seq<char>) -> Seq<u8> {
        self.file().subrange(self.ranges()[name].0, self.ranges()[name].1)
    }

    /// Takes the file's bytes with what its frontmatter says, and locates the sections of
    /// its body. The file must declare the type `graph`.
    pub fn open(bytes: &'a [u8], fm: Frontmatter, body_start: usize) -> (r: Result<Self>)
        requires
            body_start <= bytes.len(),
        ensures
            !crate::text::texts(fm.cyb.types@).contains("graph"@) ==> crate::error::invalid_because(
                r,
                "types "@ + crate::text::debug_list_text(crate::text::texts(fm.cyb.types@))
                    + " does not include \"graph\""@,
            ),
            crate::text::texts(fm.cyb.types@).contains("graph"@) ==> {
                &&& r is Ok <==> all_sections_ok(bytes@, body_start as int, fm.files@)
                &&& r matches Ok(graph) ==> {
                    &&& graph.wf()
                    &&& graph.file() == bytes@
                    &&& graph.title() == fm.cyb.name@
                    &&& graph.ranges() == section_map(
                        bytes@,
                        body_start as int,
                        fm.files@,
                        fm.files@.len(),
                    )
                }
                &&& forall|k: int| #[trigger]
                    is_first_fault(bytes@, body_start as int, fm.files@, k)
                        ==> crate::error::invalid_because(
                        r,
                        section_fault(bytes@, body_start as int, fm.files@, k),
                    )
            },
    {
        if !lists_graph(&fm.cyb.types) {
            let listed = debug_list(&fm.cyb.types);
            return Err(
                MirError::InvalidGraph(
                    String::from_str("types ").concat(listed.as_str()).concat(
                        " does not include \"graph\"",
                    ),
                ),
            );
        }
        match index_sections(bytes, body_start, fm.files.as_slice()) {
            Ok(sections) => {
                proof {
                    assert forall|name: Seq<char>| #[trigger] sections@.dom().contains(name) implies 0
                        <= sections@[name].0 <= sections@[name].1 <= bytes@.len() by {
                        lemma_section_map_bounds(
                            bytes@,
                            body_start as int,
                            fm.files@,
                            fm.files@.len(),
                            name,
                        );
                    }
                }
                Ok(GraphSnapshot { bytes, name: fm.cyb.name, sections })
            },
            Err(e) => Err(e),
        }
    }

    /// The graph's name.
    pub fn name(&self) -> (r: &str)
        ensures
            r@ == self.title(),
    {
        self.name.as_str()
    }

    /// An upper bound on the number of particles: two for each record of the
    /// `cyberlinks` section, zero without that section.
    pub fn particle_count(&self) -> (n: usize)
        requires
            self.wf(),
        ensures
            n == if self.ranges().dom().contains("cyberlinks"@) {
                self.content("cyberlinks"@).len() as int / RECORD_SIZE as int * 2
            } else {
                0
            },
    {
        match self.section_bytes("cyberlinks") {
            Ok(b) => b.len() / RECORD_SIZE * 2,
            Err(_) => 0,
        }
    }

    /// The links of the graph, in file order.
    pub fn cyberlinks(&self) -> (r: Result<CyberlinkIter<'_>>)
        requires
            self.wf(),
        ensures
            self.ranges().dom().contains("cyberlinks"@) ==> {
                &&& r is Ok
                &&& r->Ok_0.wf()
                &&& r->Ok_0.rest() == self.content("cyberlinks"@)
            },
            !self.ranges().dom().contains("cyberlinks"@) ==> {
                &&& r matches Err(MirError::MissingSection(name))
                &&& name@ == "cyberlinks"@
            },
    {
        match self.section_bytes("cyberlinks") {
            Ok(b) => Ok(CyberlinkIter::new(b)),
            Err(e) => Err(e),
        }
    }

    fn section_bytes(&self, name: &str) -> (r: Result<&[u8]>)
        requires
            self.wf(),
        ensures
            self.ranges().dom().contains(name@) ==> {
                &&& r is Ok
                &&& r->Ok_0@ == self.content(name@)
            },
            !self.ranges().dom().contains(name@) ==> {
                &&& r matches Err(MirError::MissingSection(missing))
                &&& missing@ == "cyberlinks"@
            },
    {
        match self.sections.get(name) {
            Some((start, end)) => Ok(&self.bytes[start..end]),
            None => Err(MirError::MissingSection("cyberlinks")),
        }
    }
}

fn lists_graph(types: &Vec<String>) -> (r: bool)
    ensures
        r == crate::text::texts(types@).contains("graph"@),
{
    let ghost listed = crate::text::texts(types@);
    let mut k: usize = 0;
    while k < types.len()
        invariant
            k <= types.len(),
            listed == crate::text::texts(types@),
            forall|j: int| 0 <= j < k ==> #[trigger] listed[j] != "graph"@,
        decreases types.len() - k,
    {
        assert(listed[k as int] == types[k as int]@);
        if same_text(types[k].as_str(), "graph") {
            return true;
        }
        k = k + 1;
    }
    false
}

} // verus!
