//! Snapshot, vocabulary and adjacency.

use mir::error::MirError;
use mir::graph::adjacency::{Csr, Weight};
use mir::graph::snapshot::{
    index_sections, split_frontmatter, CybMeta, Cyberlink, CyberlinkIter, FileEntry, Frontmatter,
    GraphSnapshot, RECORD_SIZE,
};
use mir::graph::vocab::ParticleIndex;

fn hash(v: u8) -> [u8; 32] {
    let mut h = [0u8; 32];
    h[0] = v;
    h
}

fn make_link(from: u8, to: u8, block: u64) -> Cyberlink {
    Cyberlink { neuron: [0u8; 32], from: hash(from), to: hash(to), token: 0, amount: 0, valence: 0, block }
}

fn link(from: u8, to: u8, amount: u128) -> Cyberlink {
    Cyberlink { neuron: [0u8; 32], from: hash(from), to: hash(to), token: 0, amount, valence: 1, block: 1 }
}

fn record(link: &Cyberlink) -> Vec<u8> {
    let mut b = Vec::new();
    b.extend_from_slice(&link.neuron);
    b.extend_from_slice(&link.from);
    b.extend_from_slice(&link.to);
    b.extend_from_slice(&link.token.to_le_bytes());
    b.extend_from_slice(&link.amount.to_le_bytes());
    b.push(link.valence as u8);
    b.extend_from_slice(&link.block.to_le_bytes());
    b.resize(RECORD_SIZE, 0);
    b
}

fn entry(name: &str, format: &str, size: Option<u64>) -> FileEntry {
    FileEntry { name: name.to_string(), format: format.to_string(), size }
}

fn frontmatter(types: &[&str], files: Vec<FileEntry>) -> Frontmatter {
    Frontmatter {
        cyb: CybMeta { types: types.iter().map(|t| t.to_string()).collect(), name: "test".to_string() },
        files,
    }
}

fn message<T>(r: Result<T, MirError>) -> String {
    match r {
        Ok(_) => panic!("expected an error"),
        Err(e) => e.message(),
    }
}

#[test]
fn cyberlink_decode_roundtrip() {
    let mut buf = [0u8; RECORD_SIZE];
    buf[96..100].copy_from_slice(&42u32.to_le_bytes());
    buf[100..116].copy_from_slice(&999u128.to_le_bytes());
    buf[116] = 1u8;
    buf[117..125].copy_from_slice(&12345u64.to_le_bytes());
    let c = Cyberlink::decode(&buf);
    assert_eq!(c.token, 42);
    assert_eq!(c.amount, 999);
    assert_eq!(c.valence, 1);
    assert_eq!(c.block, 12345);
}

#[test]
fn insertion_order() {
    let links = vec![make_link(3, 4, 10), make_link(1, 2, 5), make_link(2, 3, 7)];
    let idx = ParticleIndex::build(&links);
    // particle 1 first seen at block 5 → idx 0
    let mut h1 = [0u8; 32];
    h1[0] = 1;
    assert_eq!(idx.get(&h1), Some(0));
    // particle 4 first seen at block 10 → last (idx 3, 0-based)
    let mut h4 = [0u8; 32];
    h4[0] = 4;
    assert_eq!(idx.get(&h4), Some(3));
    assert_eq!(idx.len(), 4);
}

#[test]
fn triangle_symmetric() {
    let links = vec![link(0, 1, 10), link(1, 2, 20), link(0, 2, 30)];
    let vocab = ParticleIndex::build(&links);
    let csr = Csr::build(&links, &vocab);

    assert_eq!(csr.n, 3);
    assert_eq!(csr.nnz(), 6); // 3 edges × 2 directions

    // Every node should have degree 2 (triangle).
    for i in 0..3 {
        assert_eq!(csr.degree(i), 2, "degree of {i}");
    }
}

#[test]
fn parallel_edges_accumulate() {
    let links = vec![link(0, 1, 10), link(0, 1, 20)]; // two links same direction
    let vocab = ParticleIndex::build(&links);
    let csr = Csr::build(&links, &vocab);
    // Should deduplicate to 1 undirected edge each way.
    assert_eq!(csr.nnz(), 2);
}

#[test]
fn decoded_records_give_back_every_field() {
    let mut l = make_link(7, 9, u64::MAX);
    l.neuron = [0xab; 32];
    l.token = 0x0102_0304;
    l.amount = u128::MAX - 5;
    l.valence = -3;
    let mut buf = [0u8; RECORD_SIZE];
    buf.copy_from_slice(&record(&l));
    let c = Cyberlink::decode(&buf);
    assert_eq!(c.neuron, l.neuron);
    assert_eq!(c.from, l.from);
    assert_eq!(c.to, l.to);
    assert_eq!(c.token, l.token);
    assert_eq!(c.amount, l.amount);
    assert_eq!(c.valence, -3);
    assert_eq!(c.block, u64::MAX);
}

#[test]
fn iterator_yields_whole_records_only() {
    let mut bytes = record(&make_link(1, 2, 3));
    bytes.extend_from_slice(&record(&make_link(4, 5, 6)));
    bytes.extend_from_slice(&[1; 100]);
    let mut it = CyberlinkIter::new(&bytes);
    assert_eq!(it.size_hint(), (2, Some(2)));
    assert_eq!(it.next().map(|l| l.block), Some(3));
    assert_eq!(it.size_hint(), (1, Some(1)));
    assert_eq!(it.next().map(|l| l.block), Some(6));
    assert!(it.next().is_none());
    assert!(it.next().is_none());
    assert_eq!(CyberlinkIter::new(&bytes).collect().len(), 2);
}

#[test]
fn frontmatter_ends_at_the_first_section() {
    let file = b"[cyb]\nname = \"x\"\n~~~notes\nbody\n~~~more\n";
    let (text, start) = match split_frontmatter(file) {
        Ok(r) => r,
        Err(e) => panic!("{}", e.message()),
    };
    assert_eq!(text, "[cyb]\nname = \"x\"\n");
    assert_eq!(&file[start..start + 9], b"~~~notes\n");
}

#[test]
fn files_without_a_section_are_refused() {
    for file in [&b"name = 1\n"[..], b"~~~at the start", b"\n~~", b""] {
        assert_eq!(message(split_frontmatter(file)), "invalid .graph: no `~~~` delimiter found");
    }
}

#[test]
fn frontmatter_that_is_not_text_is_refused_with_the_reason() {
    assert_eq!(
        message(split_frontmatter(b"ab\xff\n~~~x\n")),
        "invalid .graph: non-utf8 frontmatter: invalid utf-8 sequence of 1 bytes from index 2"
    );
}

#[test]
fn sections_are_found_and_read_back() {
    let file = b"~~~notes\nsome text\n~~~raw\n\x01\x02\x03";
    let entries = vec![entry("notes", "text", None), entry("raw", "binary", Some(3))];
    let sections = match index_sections(file, 0, &entries) {
        Ok(s) => s,
        Err(e) => panic!("{}", e.message()),
    };
    let (start, end) = sections.get("raw").unwrap();
    assert_eq!(&file[start..end], b"\x01\x02\x03");
    let (start, end) = sections.get("notes").unwrap();
    assert_eq!(&file[start..end], b"some text");
    assert!(sections.get("missing").is_none());
}

#[test]
fn a_repeated_section_gives_the_last_one() {
    let file = b"~~~a\n1\n~~~a\n2";
    let entries = vec![entry("a", "text", None), entry("a", "text", None)];
    let sections = match index_sections(file, 0, &entries) {
        Ok(s) => s,
        Err(e) => panic!("{}", e.message()),
    };
    let (start, end) = sections.get("a").unwrap();
    assert_eq!(&file[start..end], b"2");
}

#[test]
fn a_section_out_of_place_is_named_in_the_message() {
    // The expected header is named without its line end and trailing white space.
    let entries = vec![entry("raw \t", "binary", Some(3))];
    assert_eq!(
        message(index_sections(b"..~~~other\nabc", 2, &entries)),
        "invalid .graph: expected `~~~raw` at byte 2"
    );
}

#[test]
fn a_section_past_the_end_is_refused() {
    for size in [4, u64::MAX] {
        let entries = vec![entry("raw", "binary", Some(size))];
        assert_eq!(
            message(index_sections(b"~~~raw\nabc", 0, &entries)),
            "invalid .graph: section `raw` extends past EOF"
        );
    }
}

#[test]
fn a_file_that_is_no_graph_names_its_types() {
    let fm = frontmatter(&["model", "notes"], vec![]);
    assert_eq!(
        message(GraphSnapshot::open(b"", fm, 0)),
        "invalid .graph: types [\"model\", \"notes\"] does not include \"graph\""
    );
}

#[test]
fn a_graph_gives_its_name_and_links() {
    let links = [make_link(1, 2, 3), make_link(2, 3, 4)];
    let mut file = b"~~~particles\n".to_vec();
    file.extend_from_slice(&[9u8; 96]);
    file.extend_from_slice(b"~~~cyberlinks\n");
    for l in &links {
        file.extend_from_slice(&record(l));
    }
    let fm = frontmatter(
        &["graph"],
        vec![
            entry("particles", "binary", Some(96)),
            entry("cyberlinks", "binary", Some(2 * RECORD_SIZE as u64)),
        ],
    );
    let snapshot = match GraphSnapshot::open(&file, fm, 0) {
        Ok(s) => s,
        Err(e) => panic!("{}", e.message()),
    };
    assert_eq!(snapshot.name(), "test");
    let read = match snapshot.cyberlinks() {
        Ok(it) => it.collect(),
        Err(e) => panic!("{}", e.message()),
    };
    assert_eq!(read.len(), 2);
    assert_eq!(read[1].block, 4);
    assert_eq!(snapshot.particle_count(), 4);
}

#[test]
fn a_graph_without_links_says_what_is_missing() {
    let fm = frontmatter(&["graph"], vec![]);
    let snapshot = match GraphSnapshot::open(b"", fm, 0) {
        Ok(s) => s,
        Err(e) => panic!("{}", e.message()),
    };
    assert_eq!(snapshot.particle_count(), 0);
    match snapshot.cyberlinks() {
        Ok(_) => panic!("expected an error"),
        Err(e) => assert_eq!(e.message(), "missing section `cyberlinks`"),
    }
}

#[test]
fn every_endpoint_is_indexed_and_read_back() {
    let links = vec![make_link(3, 4, 10), make_link(1, 2, 5), make_link(2, 3, 7)];
    let idx = ParticleIndex::build(&links);
    for l in &links {
        for h in [l.from, l.to] {
            let i = idx.get(&h).unwrap();
            assert_eq!(*idx.hash(i), h);
        }
    }
    assert_eq!(idx.get(&hash(9)), None);
    assert!(!idx.is_empty());
}

#[test]
fn the_empty_index_holds_nothing() {
    let idx = ParticleIndex::empty();
    assert!(idx.is_empty());
    assert_eq!(idx.len(), 0);
    assert_eq!(idx.get(&hash(0)), None);
    assert_eq!(idx.anchor().len(), 0);
    assert_eq!(ParticleIndex::build(&[]).len(), 0);
}

#[test]
fn the_anchor_is_the_oldest_particles() {
    let links: Vec<Cyberlink> = (0..100u8).map(|i| make_link(i, i + 100, i as u64)).collect();
    let idx = ParticleIndex::build(&links);
    assert_eq!(idx.anchor().len(), 200);
    assert_eq!(idx.anchor()[0], hash(0));
    assert_eq!(idx.anchor()[1], hash(100));
}

#[test]
fn weights_are_parts_of_the_largest_stake() {
    let links = vec![link(0, 1, 10), link(1, 0, 20), link(1, 2, 60), link(2, 2, 500)];
    let vocab = ParticleIndex::build(&links);
    let csr = Csr::build(&links, &vocab);
    let a = vocab.get(&hash(0)).unwrap() as usize;
    let b = vocab.get(&hash(1)).unwrap();
    let (cols, weights) = csr.row(a);
    assert_eq!(cols, &[b]);
    // 30 of 60: the loop does not count.
    assert_eq!(weights[0].part * 2, weights[0].whole);
}

#[test]
fn adjacency_is_symmetric_without_loops() {
    let links = vec![link(0, 1, 10), link(1, 2, 20), link(2, 0, 5), link(3, 3, 7), link(3, 1, 1)];
    let vocab = ParticleIndex::build(&links);
    let csr = Csr::build(&links, &vocab);
    for i in 0..csr.n {
        let (cols, vals) = csr.row(i);
        for (c, v) in cols.iter().zip(vals) {
            assert!(*c as usize != i);
            let (back, back_vals) = csr.row(*c as usize);
            let k = back.iter().position(|b| *b as usize == i).unwrap();
            assert_eq!(back_vals[k], *v);
            assert!(v.part <= v.whole && v.whole > 0);
        }
    }
}

#[test]
fn values_can_be_replaced() {
    let links = vec![link(0, 1, 10)];
    let vocab = ParticleIndex::build(&links);
    let csr = Csr::build(&links, &vocab);
    assert_eq!(csr.values, vec![Weight { part: 10, whole: 10 }; 2]);
    let floats = csr.with_values(vec![0.5f32, 0.25]);
    assert_eq!(floats.row(1).1, &[0.25]);
}

#[test]
fn the_empty_matrix_has_no_entries() {
    let csr = Csr::<Weight>::empty();
    assert_eq!((csr.n, csr.nnz()), (0, 0));
}

#[test]
fn the_same_links_have_one_matrix() {
    let links = vec![link(0, 1, 10), link(1, 2, 20), link(2, 0, 5), link(3, 1, 1)];
    let vocab = ParticleIndex::build(&links);
    let first = Csr::build(&links, &vocab);
    let second = Csr::build(&links, &vocab);
    assert_eq!(first.row_ptr, second.row_ptr);
    assert_eq!(first.col_idx, second.col_idx);
    assert_eq!(first.values, second.values);
}

#[test]
fn particles_of_one_block_are_ordered_by_hash() {
    let links = vec![make_link(9, 3, 5), make_link(7, 9, 6), make_link(1, 3, 6)];
    let idx = ParticleIndex::build(&links);
    let order: Vec<u8> = (0..4).map(|i| idx.hash(i)[0]).collect();
    assert_eq!(order, vec![3, 9, 1, 7]);
}

#[test]
fn a_written_file_is_read_back() {
    let links = [make_link(1, 2, 3), make_link(2, 3, 4), make_link(5, 1, 6)];
    let mut file = b"[cyb]\ntypes = [\"graph\"]\n".to_vec();
    let front = file.len();
    file.extend_from_slice(b"~~~readme\nseveral\nlines of text\n~~~cyberlinks\n");
    for l in &links {
        file.extend_from_slice(&record(l));
    }
    file.extend_from_slice(b"\n~~~notes\nuntil the end");
    let (_, start) = match split_frontmatter(&file) {
        Ok(r) => r,
        Err(e) => panic!("{}", e.message()),
    };
    assert_eq!(start, front);
    let fm = frontmatter(
        &["graph"],
        vec![
            entry("readme", "text", None),
            entry("cyberlinks", "binary", Some(3 * RECORD_SIZE as u64)),
            entry("notes", "text", None),
        ],
    );
    let sections = match index_sections(&file, start, &fm.files) {
        Ok(s) => s,
        Err(e) => panic!("{}", e.message()),
    };
    let content = |name: &str| {
        let (start, end) = sections.get(name).unwrap();
        file[start..end].to_vec()
    };
    assert_eq!(content("readme"), b"several\nlines of text");
    assert_eq!(content("notes"), b"until the end");
    let snapshot = match GraphSnapshot::open(&file, fm, start) {
        Ok(s) => s,
        Err(e) => panic!("{}", e.message()),
    };
    let read = match snapshot.cyberlinks() {
        Ok(it) => it.collect(),
        Err(e) => panic!("{}", e.message()),
    };
    let blocks: Vec<(u8, u8, u64)> = read.iter().map(|l| (l.from[0], l.to[0], l.block)).collect();
    assert_eq!(blocks, vec![(1, 2, 3), (2, 3, 4), (5, 1, 6)]);
}

#[test]
fn links_that_are_no_edges_change_nothing() {
    let links = vec![link(0, 1, 10), link(1, 2, 20), link(3, 2, 5)];
    let vocab = ParticleIndex::build(&links);
    let alone = Csr::build(&links, &vocab);
    // Loops and unknown particles, with stakes above all others.
    let mut more = vec![link(1, 1, 900), link(9, 1, 800)];
    more.extend_from_slice(&links);
    more.push(link(0, 9, 700));
    let csr = Csr::build(&more, &vocab);
    assert_eq!(csr.n, alone.n);
    assert_eq!(csr.row_ptr, alone.row_ptr);
    assert_eq!(csr.col_idx, alone.col_idx);
    assert_eq!(csr.values, alone.values);
}
