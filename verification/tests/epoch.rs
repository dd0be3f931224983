//! Coordinates, cluster hierarchy and appearance.

use mir::conformance::{check_topo_stability, FocusLead};
use mir::epoch::bvh::{
    build, canonicalize_ids, cluster_count, grid_cluster, node_bytes, Bvh, BvhNode, Level, NODE_SIZE,
};
use mir::epoch::eigensolver::{
    krylov_dim, restart_numbers, select_modes, sort_modes, start_numbers, SpectralCoords,
};
use mir::epoch::{degrees, infer_roles, radius_factor, role_colors, EpochState, Role};
use mir::graph::adjacency::Csr;
use mir::graph::snapshot::Cyberlink;
use mir::graph::vocab::ParticleIndex;
use mir::random::{lcg_next, lcg_stream};
use mir::scalar::Scalar;

const TAU_SCALES: [f32; 4] = [1.0, 10.0, 100.0, 1000.0];

fn scalar(v: f32) -> Scalar {
    Scalar { bits: v.to_bits() }
}

fn float(s: Scalar) -> f32 {
    f32::from_bits(s.bits)
}

fn scalars(values: &[f32]) -> Vec<Scalar> {
    values.iter().map(|v| scalar(*v)).collect()
}

fn make_coords(pts: &[[f32; 3]]) -> SpectralCoords<Scalar> {
    let n = pts.len();
    let mut coords = Vec::with_capacity(n * 3);
    for p in pts {
        coords.extend(p.iter().map(|v| scalar(*v)));
    }
    SpectralCoords { n, coords, extra: vec![scalar(0.0); n * 2] }
}

/// The clusters of one scale: grid cells of the given size, and the focus of each.
fn level(pts: &[[f32; 3]], focus: &[f32], tau: f32) -> Level {
    let size = 100.0_f32 * tau.sqrt();
    let cells: Vec<(i32, i32, i32)> = pts
        .iter()
        .map(|p| {
            let cell = |v: f32| (v / size).floor() as i32;
            (cell(p[0]), cell(p[1]), cell(p[2]))
        })
        .collect();
    let ids = grid_cluster(&cells);
    let mut sums = vec![0.0f32; cluster_count(&ids)];
    for (p, id) in ids.iter().enumerate() {
        sums[*id as usize] += focus[p];
    }
    Level { ids, focus: scalars(&sums) }
}

fn build_bvh(pts: &[[f32; 3]], focus: &[f32]) -> Bvh {
    let levels = TAU_SCALES.map(|tau| level(pts, focus, tau));
    build(&make_coords(pts), &levels)
}

#[test]
fn bvh_100_particles_all_assigned() {
    // Generate 100 points spread across the unit cube scaled to [-500, 500].
    let n = 100usize;
    let pts: Vec<[f32; 3]> = (0..n)
        .map(|i| {
            let t = i as f32 / n as f32;
            let x = (t * 17.3).sin() * 500.0;
            let y = (t * 13.7).cos() * 500.0;
            let z = (t * 11.1).sin() * 300.0;
            [x, y, z]
        })
        .collect();
    let focus = vec![1.0f32 / n as f32; n];

    let bvh = build_bvh(&pts, &focus);

    // Every particle should have a cluster ID assigned at all 4 scales.
    assert_eq!(bvh.cluster_ids.len(), n, "cluster_ids length mismatch");
    for (p, ids) in bvh.cluster_ids.iter().enumerate() {
        for level in 0..4 {
            // Cluster ID must be a valid index (not u32::MAX).
            assert_ne!(ids[level], u32::MAX, "particle {p} has no cluster at level {level}");
        }
    }

    // BVH should have at least one node.
    assert!(!bvh.nodes.is_empty(), "BVH has no nodes");

    // Every particle position should be contained in its level-0 cluster AABB.
    let ids0: Vec<u32> = bvh.cluster_ids.iter().map(|ids| ids[0]).collect();
    let n_c0 = ids0.iter().copied().max().map(|m| m + 1).unwrap_or(0) as usize;
    for p in 0..n {
        let cid = ids0[p] as usize;
        assert!(cid < n_c0, "cluster id {cid} out of range {n_c0}");
        let node = &bvh.nodes[cid];
        let pos = pts[p];
        for d in 0..3 {
            assert!(
                float(node.aabb_min[d]) <= pos[d] + 1e-3,
                "particle {p} dim {d}: pos {} < aabb_min {}",
                pos[d],
                float(node.aabb_min[d])
            );
            assert!(
                float(node.aabb_max[d]) >= pos[d] - 1e-3,
                "particle {p} dim {d}: pos {} > aabb_max {}",
                pos[d],
                float(node.aabb_max[d])
            );
        }
    }
}

#[test]
fn cells_are_numbered_as_they_occur() {
    let a = (0, 0, 0);
    let b = (-1, 0, 0);
    let c = (i32::MAX, i32::MIN, 7);
    assert_eq!(grid_cluster(&[b, a, b, c, a]), vec![0, 1, 0, 2, 1]);
    assert_eq!(grid_cluster(&[]), Vec::<u32>::new());
    assert_eq!(cluster_count(&[0, 1, 0, 2, 1]), 3);
    assert_eq!(cluster_count(&[]), 0);
}

#[test]
fn clusters_are_labelled_by_focus_then_by_first_member() {
    let mut ids = vec![2, 0, 1, 0, 3];
    let max_id = canonicalize_ids(&mut ids, &scalars(&[0.3, 0.5, 0.3, 0.1]));
    // Cluster 1 leads; 2 comes before 0 because particle 0 is its member.
    assert_eq!(ids, vec![1, 2, 0, 2, 3]);
    assert_eq!(max_id, 3);
    let mut none = vec![];
    assert_eq!(canonicalize_ids(&mut none, &[]), 0);
}

#[test]
fn canonical_labels_do_not_depend_on_the_numbering() {
    let mut first = vec![0, 1, 2, 1];
    let mut second = vec![2, 0, 1, 0];
    canonicalize_ids(&mut first, &scalars(&[0.2, 0.6, 0.2]));
    canonicalize_ids(&mut second, &scalars(&[0.6, 0.2, 0.2]));
    assert_eq!(first, second);
    assert_eq!(first, vec![1, 0, 2, 0]);
}

#[test]
fn nodes_have_tight_boxes_sums_and_children() {
    // Two particles in one fine cell, one in another; all in one coarse cell.
    let pts = [[10.0, 20.0, 30.0], [150.0, 20.0, 30.0], [40.0, 5.0, 30.0]];
    let bvh = build_bvh(&pts, &[0.25, 0.25, 0.5]);
    assert_eq!(bvh.cluster_ids, vec![[0; 4], [1, 0, 0, 0], [0; 4]]);
    assert_eq!(bvh.nodes.len(), 5);
    let leaf = &bvh.nodes[0];
    assert_eq!(leaf.aabb_min.map(float), [10.0, 5.0, 30.0]);
    assert_eq!(leaf.aabb_max.map(float), [40.0, 20.0, 30.0]);
    assert_eq!((float(leaf.focus_sum), leaf.is_leaf, leaf.child_count), (0.75, 1, 0));
    let parent = &bvh.nodes[2];
    assert_eq!(parent.aabb_max.map(float), [150.0, 20.0, 30.0]);
    assert_eq!((float(parent.focus_sum), parent.is_leaf), (1.0, 0));
    assert_eq!((parent.child_start, parent.child_count), (0, 2));
    assert_eq!((bvh.nodes[3].child_start, bvh.nodes[3].child_count), (2, 1));
    assert_eq!((bvh.nodes[4].child_start, bvh.nodes[4].child_count), (3, 1));
}

#[test]
fn no_particles_make_no_nodes() {
    let bvh = build_bvh(&[], &[]);
    assert!(bvh.nodes.is_empty() && bvh.cluster_ids.is_empty());
}

#[test]
fn lanczos_has_at_most_48_steps() {
    assert_eq!((krylov_dim(0), krylov_dim(3)), (None, None));
    assert_eq!((krylov_dim(4), krylov_dim(10)), (Some(3), Some(9)));
    assert_eq!((krylov_dim(49), krylov_dim(1000)), (Some(48), Some(48)));
}

#[test]
fn numbers_follow_the_generator() {
    assert_eq!(lcg_next(0), 1442695040888963407);
    assert_eq!(lcg_next(1), 7806831264735756412);
    let stream = lcg_stream(42, 3);
    let mut state = 42u64;
    for v in &stream {
        state = state.wrapping_mul(6364136223846793005).wrapping_add(1442695040888963407);
        assert_eq!(*v, (state >> 33) as u32);
    }
    assert_eq!(start_numbers(3), stream);
    assert_eq!(restart_numbers(0, 3), lcg_stream(1041, 3));
    assert_eq!(restart_numbers(2, 3), lcg_stream(1125, 3));
}

#[test]
fn eigenpairs_are_sorted_with_their_columns() {
    let (values, vectors) = sort_modes(&scalars(&[0.5, -0.25, 0.5]), &[1, 2, 3, 4, 5, 6, 7, 8, 9]);
    assert_eq!(values.iter().map(|v| float(*v)).collect::<Vec<_>>(), vec![-0.25, 0.5, 0.5]);
    assert_eq!(vectors, vec![2, 1, 3, 5, 4, 6, 8, 7, 9]);
}

#[test]
fn trivial_modes_are_skipped_and_missing_ones_filled_up() {
    // The zero mode is skipped; the five after it are taken.
    let values = scalars(&[0.0, 0.1, 0.2, 0.3, 0.4, 0.5, 0.6]);
    assert_eq!(select_modes(&values), vec![1, 2, 3, 4, 5]);
    // Too few: the skipped ones come after the accepted ones.
    let values = scalars(&[-0.5, 1e-7, 0.2, 0.3]);
    assert_eq!(select_modes(&values), vec![2, 3, 0, 1]);
    assert_eq!(select_modes(&[]), Vec::<usize>::new());
    // After the first one, small ones count.
    let values = scalars(&[0.5, 1e-8]);
    assert_eq!(select_modes(&values), vec![0, 1]);
}

#[test]
fn modes_become_rows_of_coordinates() {
    let modes = vec![vec![1, 2], vec![3, 4], vec![5, 6], vec![7, 8]];
    let coords = SpectralCoords::from_modes(2, &modes, 0);
    assert_eq!(coords.coords, vec![1, 3, 5, 2, 4, 6]);
    assert_eq!(coords.extra, vec![7, 0, 8, 0]);
    assert_eq!(coords.position(1), [2, 4, 6]);
    let none = SpectralCoords::from_modes(3, &[], 0);
    assert_eq!((none.coords, none.extra), (vec![0; 9], vec![0; 6]));
}

#[test]
fn roles_follow_degree_and_threshold() {
    let ds = [1usize, 2, 9, 0];
    let values: Vec<Scalar> = ds.iter().map(|d| scalar(*d as f32)).collect();
    let roles = infer_roles(&ds, &values, scalar(8.5));
    assert_eq!(roles, vec![Role::Leaf, Role::Sphere, Role::Hub, Role::Sphere]);
    // Exactly at the threshold is no hub.
    assert_eq!(infer_roles(&[9], &[scalar(9.0)], scalar(9.0)), vec![Role::Sphere]);
}

#[test]
fn roles_have_their_colours_and_factors() {
    let colors = role_colors(&[Role::Hub, Role::Leaf, Role::Sphere]);
    let floats: Vec<f32> = colors.iter().map(|c| float(*c)).collect();
    assert_eq!(floats, vec![0.20, 0.55, 1.00, 0.07, 0.22, 0.68, 0.12, 0.38, 0.88]);
    assert_eq!(float(radius_factor(Role::Hub)), 1.5);
    assert_eq!(float(radius_factor(Role::Leaf)), 0.7);
    assert_eq!(float(radius_factor(Role::Sphere)), 1.0);
}

#[test]
fn degrees_count_neighbours() {
    let hash = |v: u8| {
        let mut h = [0u8; 32];
        h[0] = v;
        h
    };
    let link = |from: u8, to: u8| Cyberlink {
        neuron: [0; 32],
        from: hash(from),
        to: hash(to),
        token: 0,
        amount: 1,
        valence: 1,
        block: from as u64,
    };
    let links = vec![link(0, 1), link(0, 2), link(0, 3)];
    let csr = Csr::build(&links, &ParticleIndex::build(&links));
    let mut ds = degrees(&csr);
    ds.sort_unstable();
    assert_eq!(ds, vec![1, 1, 1, 3]);
}

#[test]
fn an_epoch_takes_its_clusters_from_the_hierarchy() {
    let pts = [[0.0, 0.0, 0.0], [900.0, 0.0, 0.0]];
    let bvh = build_bvh(&pts, &[0.5, 0.5]);
    let ids = bvh.cluster_ids.clone();
    let coords = SpectralCoords { n: 2, coords: vec![1; 6], extra: vec![0; 4] };
    let epoch =
        EpochState::assemble(coords, vec![2; 2], vec![3; 6], vec![4; 2], bvh, vec![5; 2], 6, None);
    assert_eq!(epoch.cluster_ids, ids);
    assert_eq!(epoch.positions, vec![1; 6]);
    assert_eq!(epoch.scene_scale, 6);
    assert!(epoch.nrf.is_none());
}

#[test]
fn the_hierarchy_does_not_depend_on_how_clusters_were_numbered() {
    let pts = [[0.0, 0.0, 0.0], [950.0, 0.0, 0.0], [10.0, 0.0, 0.0], [-950.0, 0.0, 0.0]];
    let finest = |bvh: &Bvh| bvh.cluster_ids.iter().map(|c| c[0]).collect::<Vec<_>>();
    let cases = [
        // The pair at the origin has the least focus.
        ([0.125, 0.5, 0.125, 0.375], vec![2, 0, 2, 1]),
        // It has as much as the last particle, and holds the first.
        ([0.125, 0.5, 0.25, 0.375], vec![1, 0, 1, 2]),
    ];
    for (focus, expected) in cases {
        let levels = TAU_SCALES.map(|tau| level(&pts, &focus, tau));
        // The same clusters, numbered from the other end.
        let renumbered = TAU_SCALES.map(|tau| {
            let Level { ids, mut focus } = level(&pts, &focus, tau);
            let last = focus.len() as u32 - 1;
            focus.reverse();
            Level { ids: ids.iter().map(|id| last - id).collect(), focus }
        });
        let coords = make_coords(&pts);
        let first = build(&coords, &levels);
        let second = build(&coords, &renumbered);
        assert_eq!(finest(&first), expected);
        assert_eq!(first.cluster_ids, second.cluster_ids);
        assert_eq!(first.nodes.len(), second.nodes.len());
        let place = |b: &Bvh| {
            b.nodes
                .iter()
                .map(|n| (n.child_start, n.child_count, n.is_leaf, n.leaf_start, n.leaf_count))
                .collect::<Vec<_>>()
        };
        assert_eq!(place(&first), place(&second));
    }
}

#[test]
fn built_hierarchies_pass_the_topology_check() {
    let pts: Vec<[f32; 3]> =
        (0..30).map(|i| [(i * 97 % 1000) as f32, (i * 31 % 700) as f32, (i * 7) as f32]).collect();
    let focus: Vec<f32> = (0..30).map(|i| 1.0 / (1 + i) as f32).collect();
    let levels = TAU_SCALES.map(|tau| level(&pts, &focus, tau));
    let leads: [FocusLead; 4] = std::array::from_fn(|l| {
        let head = levels[l].focus.iter().map(|s| float(*s)).fold(0.0, f32::max);
        FocusLead { head: scalar(head), bound: scalar(head - 1e-5) }
    });
    let bvh = build(&make_coords(&pts), &levels);
    assert!(check_topo_stability(&bvh.cluster_ids, &leads));
}

#[test]
fn leaves_count_their_particles() {
    // Two leaves of one particle each.
    let bvh = build_bvh(&[[50.0, 50.0, 50.0], [250.0, 50.0, 50.0]], &[0.25, 0.75]);
    assert_eq!((bvh.nodes[0].leaf_start, bvh.nodes[0].leaf_count), (1, 1));
    assert_eq!((bvh.nodes[1].leaf_start, bvh.nodes[1].leaf_count), (0, 1));
    // Particles of one leaf need not be side by side.
    let pts = [[950.0, 0.0, 0.0], [0.0, 0.0, 0.0], [-950.0, 0.0, 0.0], [10.0, 0.0, 0.0]];
    let bvh = build_bvh(&pts, &[0.25, 0.5, 0.125, 0.5]);
    let leaves: Vec<(u32, u32)> = bvh.nodes[..3].iter().map(|n| (n.leaf_start, n.leaf_count)).collect();
    assert_eq!(leaves, vec![(1, 2), (0, 1), (2, 1)]);
    assert!(bvh.nodes[3..].iter().all(|n| n.leaf_start == 0 && n.leaf_count == 0 && n.is_leaf == 0));
}

#[test]
fn a_node_takes_twelve_words() {
    let node = BvhNode {
        aabb_min: [1.0, 2.0, 3.0].map(scalar),
        focus_sum: scalar(0.5),
        aabb_max: [4.0, 5.0, 6.0].map(scalar),
        child_start: 7,
        child_count: 0x0102_0304,
        is_leaf: 1,
        leaf_start: 8,
        leaf_count: u32::MAX,
    };
    let bytes = node_bytes(&node);
    assert_eq!(bytes.len(), NODE_SIZE);
    let words: Vec<u32> =
        bytes.chunks_exact(4).map(|b| u32::from_le_bytes([b[0], b[1], b[2], b[3]])).collect();
    let floats: Vec<f32> = words[..7].iter().map(|w| f32::from_bits(*w)).collect();
    assert_eq!(floats, vec![1.0, 2.0, 3.0, 0.5, 4.0, 5.0, 6.0]);
    assert_eq!(words[7..], [7, 0x0102_0304, 1, 8, u32::MAX]);
    assert_eq!(bytes[32..36], [4, 3, 2, 1]);
}

#[test]
fn a_focus_that_is_no_number_ties() {
    let mut ids = vec![0, 1];
    canonicalize_ids(&mut ids, &scalars(&[0.5, f32::NAN]));
    assert_eq!(ids, vec![0, 1]);
    let mut ids = vec![0, 1, 2];
    canonicalize_ids(&mut ids, &scalars(&[f32::NAN, 0.25, 0.5]));
    assert_eq!(ids, vec![0, 2, 1]);
    let mut ids = vec![2, 1, 0];
    canonicalize_ids(&mut ids, &scalars(&[0.25, -f32::NAN, 0.5]));
    assert_eq!(ids, vec![0, 1, 2]);
    // The numbering still does not matter.
    let mut first = vec![0, 1, 2, 3, 1];
    let mut second = vec![3, 2, 0, 1, 2];
    canonicalize_ids(&mut first, &scalars(&[0.2, f32::NAN, 0.9, 0.1]));
    canonicalize_ids(&mut second, &scalars(&[0.9, 0.1, f32::NAN, 0.2]));
    assert_eq!(first, second);
}

#[test]
fn eigenvalues_that_are_no_numbers_are_not_passed() {
    let sorted = |values: &[f32]| -> Vec<usize> {
        let k = values.len();
        // Each row of the matrix lists the columns, so that the result shows the order.
        let columns: Vec<usize> = (0..k * k).map(|i| i % k).collect();
        sort_modes(&scalars(values), &columns).1[..k].to_vec()
    };
    assert_eq!(sorted(&[f32::NAN, 1.0, 0.0]), vec![0, 2, 1]);
    assert_eq!(sorted(&[2.0, f32::NAN, 1.0, 0.0]), vec![0, 1, 3, 2]);
    assert_eq!(sorted(&[3.0, 2.0, f32::NAN]), vec![1, 0, 2]);
    assert_eq!(sorted(&[0.0, -0.0, 0.0]), vec![0, 1, 2]);
    assert_eq!(sorted(&[]), Vec::<usize>::new());
}
