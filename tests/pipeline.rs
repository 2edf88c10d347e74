use voxel_dag::aabb::BoundingBox;
use voxel_dag::dag::{compact, compact_indexed, CanonicalNode, Dag};
use voxel_dag::encode::{encode, Node};
use voxel_dag::grid::{grid_from_voxels, node_contains_geometry};
use voxel_dag::octree::{recommended_level, BuildError, Octree};
use voxel_dag::voxel_data_structure::VoxelDAG;

fn grid(sx: u32, sy: u32, sz: u32, filled: &[(u32, u32, u32)]) -> Vec<u8> {
    let mut data = vec![0u8; (sx * sy * sz) as usize];
    for &(x, y, z) in filled {
        data[(x + y * sx + z * sx * sy) as usize] = 1;
    }
    data
}

fn leaf_count(t: &Octree) -> usize {
    t.octants.iter().filter(|o| o.is_leaf).count()
}

#[test]
fn full_cube_compacts_to_root_and_shared_leaf() {
    let data = vec![1u8; 8];
    let t = Octree::from_voxel_data(&data, (2, 2, 2), 1).unwrap();
    assert_eq!(t.node_count(), 9);
    assert!(!t.octants[0].is_leaf);
    assert_eq!(leaf_count(&t), 8);
    let d = compact(&t);
    assert_eq!(d.node_count(), 2);
    assert_eq!(d.nodes[d.root].mask, 0b1111_1111);
    assert_eq!(d.nodes[d.root].children.len(), 8);
}

#[test]
fn empty_grid_is_single_leaf() {
    for level in 1..5u32 {
        let data = vec![0u8; 27];
        let t = Octree::from_voxel_data(&data, (3, 3, 3), level).unwrap();
        assert_eq!(t.node_count(), 1);
        assert!(t.octants[0].is_leaf);
        let d = compact(&t);
        assert_eq!(d.node_count(), 1);
        assert_eq!(d.nodes[d.root].mask, 0);
        let recs = encode(&d);
        assert_eq!(recs, vec![Node::new(0, 0)]);
    }
}

#[test]
fn single_corner_voxel_keeps_one_path() {
    for side in [8u32, 16, 32] {
        let data = grid(side, side, side, &[(0, 0, 0)]);
        let t = Octree::from_voxel_data(&data, (side, side, side), 3).unwrap();
        // One internal node per level above the limit.
        let internal = t.octants.iter().filter(|o| !o.is_leaf).count();
        assert_eq!(internal, 3);
        assert_eq!(t.node_count(), 25);
        let d = compact(&t);
        // A leaf, the node of eight leaves, and one node per level above it.
        assert_eq!(d.node_count(), 4);
        assert!(d.node_count() < t.node_count());
    }
}

#[test]
fn zero_level_is_rejected() {
    let data = vec![1u8; 8];
    assert_eq!(Octree::from_voxel_data(&data, (2, 2, 2), 0).err(), Some(BuildError::InvalidLevel));
    assert_eq!(VoxelDAG::from_voxel_data(&data, (2, 2, 2), 0).err(), Some(BuildError::InvalidLevel));
}

#[test]
fn wrong_length_is_rejected() {
    let data = vec![1u8; 7];
    assert_eq!(Octree::from_voxel_data(&data, (2, 2, 2), 1).err(), Some(BuildError::GridSizeMismatch));
    assert_eq!(VoxelDAG::from_voxel_data(&data, (2, 2, 2), 2).err(), Some(BuildError::GridSizeMismatch));
}

#[test]
fn octree_is_breadth_first_with_consecutive_children() {
    let data = grid(4, 4, 4, &[(0, 0, 0), (3, 3, 3)]);
    let t = Octree::from_voxel_data(&data, (4, 4, 4), 2).unwrap();
    for (i, o) in t.octants.iter().enumerate() {
        if i > 0 {
            assert!(t.octants[i - 1].level <= o.level);
        }
        match o.first_child {
            Some(f) => {
                assert!(!o.is_leaf);
                for j in 0..8 {
                    assert_eq!(t.octants[f + j].parent, Some(i));
                    assert_eq!(t.octants[f + j].level, o.level + 1);
                }
            }
            None => assert!(o.is_leaf),
        }
    }
    // Root splits; two opposite corners split again; the rest are leaves.
    assert_eq!(t.node_count(), 1 + 8 + 16);
    assert_eq!(t.side, 4);
}

#[test]
fn child_positions_follow_octant_bits() {
    let data = vec![1u8; 64];
    let t = Octree::from_voxel_data(&data, (4, 4, 4), 1).unwrap();
    // The cube is 4 voxels wide, 8 half-voxel units; children are 4 units wide.
    for j in 0..8u64 {
        let p = t.octants[1 + j as usize].position;
        assert_eq!(p, ((j & 1) * 4, ((j >> 1) & 1) * 4, ((j >> 2) & 1) * 4));
    }
}

#[test]
fn bounding_cube_is_centered_on_grid() {
    // A 3-wide axis sits inside a 4-wide cube, offset by one half voxel.
    let data = grid(3, 1, 1, &[(0, 0, 0)]);
    let t = Octree::from_voxel_data(&data, (3, 1, 1), 2).unwrap();
    assert_eq!(t.side, 4);
    // Voxel 0 spans half-units [1, 3): the lowest child at level 1 meets it.
    assert!(!t.octants[1].is_leaf);
    // Octant 1 (upper x half, units [4, 8)) meets voxels 1 and 2, which are empty.
    assert!(t.octants[2].is_leaf);
}

#[test]
fn occupancy_ignores_cells_outside_the_grid() {
    let data = grid(2, 2, 2, &[(1, 1, 1)]);
    // Offsets of zero: voxel v spans [2v, 2v + 2).
    assert!(node_contains_geometry(&data, (2, 2, 2), (0, 0, 0), (2, 2, 2), 2));
    assert!(!node_contains_geometry(&data, (2, 2, 2), (0, 0, 0), (0, 0, 0), 2));
    assert!(!node_contains_geometry(&data, (2, 2, 2), (0, 0, 0), (4, 4, 4), 100));
    assert!(node_contains_geometry(&data, (2, 2, 2), (0, 0, 0), (0, 0, 0), 4));
    // A sub-voxel cell inside voxel (1,1,1).
    assert!(node_contains_geometry(&data, (2, 2, 2), (0, 0, 0), (3, 3, 3), 1));
}

#[test]
fn square_keeps_center() {
    let mut b = BoundingBox::new((0, 0, 0), (3, 1, 2));
    let c = b.center();
    assert_eq!(c, (3, 1, 2));
    b.square();
    assert_eq!(b.center(), c);
    assert_eq!(b.min, (0, -2, -1));
    assert_eq!(b.max, (6, 4, 5));
}

#[test]
fn identical_subtrees_share_an_id() {
    let data = grid(4, 4, 4, &[(0, 0, 0), (2, 0, 0), (0, 2, 2)]);
    let t = Octree::from_voxel_data(&data, (4, 4, 4), 2).unwrap();
    let (d, ids) = compact_indexed(&t);
    let f = t.octants[0].first_child.unwrap();
    // Octants 0, 1 and 6 each hold one voxel in their lowest corner.
    assert_eq!(ids[f], ids[f + 1]);
    assert_eq!(ids[f], ids[f + 6]);
    // Every leaf maps to one canonical leaf.
    let leaf_ids: Vec<usize> = (0..t.node_count()).filter(|&i| t.octants[i].is_leaf).map(|i| ids[i]).collect();
    assert!(leaf_ids.iter().all(|&x| x == leaf_ids[0]));
    assert_eq!(d.node_count(), 3);
}

fn sample_dag() -> Dag {
    let data = grid(8, 8, 8, &[(0, 0, 0), (7, 7, 7), (3, 4, 5), (6, 1, 2)]);
    let t = Octree::from_voxel_data(&data, (8, 8, 8), 3).unwrap();
    compact(&t)
}

#[test]
fn canonical_nodes_have_one_child_per_mask_bit() {
    let d = sample_dag();
    for (n, node) in d.nodes.iter().enumerate() {
        assert_eq!(node.mask.count_ones() as usize, node.children.len());
        assert!(node.children.iter().all(|&c| c < n));
    }
}

#[test]
fn recompacting_is_identity() {
    let d = sample_dag();
    let again = d.recompact();
    assert_eq!(again.root, d.root);
    assert_eq!(again.node_count(), d.node_count());
    for (a, b) in again.nodes.iter().zip(d.nodes.iter()) {
        assert_eq!(a.mask, b.mask);
        assert_eq!(a.children, b.children);
    }
}

#[test]
fn recompacting_merges_duplicates() {
    let d = Dag {
        nodes: vec![
            CanonicalNode { mask: 0, children: vec![] },
            CanonicalNode { mask: 0, children: vec![] },
            CanonicalNode { mask: 0b101, children: vec![0, 1] },
        ],
        root: 2,
    };
    let r = d.recompact();
    assert_eq!(r.node_count(), 2);
    assert_eq!(r.nodes[r.root].mask, 0b101);
    assert_eq!(r.nodes[r.root].children, vec![0, 0]);
}

fn decode(recs: &[Node], s: usize, depth: usize, out: &mut Vec<(usize, u32)>) {
    let (mask, first) = recs[s].get_raw();
    out.push((depth, mask));
    for i in 0..8u32 {
        if mask & (1 << i) != 0 {
            let slot = first + (mask & ((1 << i) - 1)).count_ones();
            decode(recs, slot as usize, depth + 1, out);
        }
    }
}

fn expand(d: &Dag, n: usize, depth: usize, out: &mut Vec<(usize, u32)>) {
    out.push((depth, d.nodes[n].mask as u32));
    for &c in &d.nodes[n].children {
        expand(d, c, depth + 1, out);
    }
}

#[test]
fn encoded_buffer_decodes_to_the_dag() {
    let d = sample_dag();
    let recs = encode(&d);
    let mut a = Vec::new();
    let mut b = Vec::new();
    decode(&recs, 0, 0, &mut a);
    expand(&d, d.root, 0, &mut b);
    assert_eq!(a, b);
    assert_eq!(recs[0].childmask, d.nodes[d.root].mask as u32);
    for r in &recs {
        assert!(r.childmask < 256);
        if r.childmask == 0 {
            assert_eq!(r.child, 0);
        }
    }
}

#[test]
fn encoded_runs_are_breadth_first() {
    let data = vec![1u8; 8];
    let v = VoxelDAG::from_voxel_data(&data, (2, 2, 2), 1).unwrap();
    let mut expected = vec![Node::new(0xff, 1)];
    expected.extend(std::iter::repeat(Node::new(0, 0)).take(8));
    assert_eq!(v.records, expected);
    assert_eq!(v.node_count(), 9);
}

#[test]
fn pipeline_bytes_are_little_endian() {
    let data = vec![1u8; 8];
    let v = VoxelDAG::from_voxel_data(&data, (2, 2, 2), 1).unwrap();
    let bytes = v.as_bytes();
    assert_eq!(bytes.len(), 72);
    assert_eq!(&bytes[0..8], &[0xff, 0, 0, 0, 1, 0, 0, 0]);
    assert!(bytes[8..].iter().all(|&b| b == 0));
    let r = Node::new(0x0102_0304, 0xa0b0_c0d0);
    let v = VoxelDAG { records: vec![r] };
    assert_eq!(v.as_bytes(), vec![4, 3, 2, 1, 0xd0, 0xc0, 0xb0, 0xa0]);
}

#[test]
fn node_accessors() {
    let n = Node::new(5, 9);
    assert_eq!(n.get_raw(), (5, 9));
    assert_eq!(n.childmask, 5);
    assert_eq!(n.child, 9);
}

#[test]
fn compaction_never_grows() {
    for level in 1..4u32 {
        let data = grid(5, 3, 7, &[(0, 0, 0), (4, 2, 6), (2, 1, 3), (1, 2, 5)]);
        let t = Octree::from_voxel_data(&data, (5, 3, 7), level).unwrap();
        let d = compact(&t);
        assert!(d.node_count() <= t.node_count());
        if leaf_count(&t) > 1 {
            assert!(d.node_count() < t.node_count());
        }
    }
}

#[test]
fn voxels_are_placed_row_major() {
    let g = grid_from_voxels((3, 2, 2), &vec![(1, 0, 0, 5), (2, 1, 1, 7), (9, 0, 0, 3), (1, 0, 0, 6)]);
    assert_eq!(g.len(), 12);
    let mut expected = vec![0u8; 12];
    expected[1] = 6;
    expected[2 + 3 + 6] = 7;
    assert_eq!(g, expected);
    assert_eq!(grid_from_voxels((0, 4, 4), &vec![(0, 0, 0, 1)]), Vec::<u8>::new());
}

#[test]
fn recommended_level_is_ceil_log2() {
    assert_eq!(recommended_level((1, 1, 1)), 0);
    assert_eq!(recommended_level((2, 1, 1)), 1);
    assert_eq!(recommended_level((3, 8, 2)), 3);
    assert_eq!(recommended_level((126, 126, 126)), 7);
    assert_eq!(recommended_level((1, 1, 129)), 8);
    assert_eq!(recommended_level((u32::MAX, 1, 1)), 32);
}

#[test]
fn teapot_sized_grid_builds() {
    let mut data = vec![0u8; 126 * 126 * 126];
    for x in 40..80usize {
        for y in 10..30usize {
            data[x + y * 126 + 60 * 126 * 126] = 3;
        }
    }
    let v = VoxelDAG::from_voxel_data(&data, (126, 126, 126), 6).unwrap();
    assert!(v.node_count() >= 1);
    assert_eq!(v.records[0].childmask, 0xff);
    assert_eq!(v.as_bytes().len(), 8 * v.records.len());
}

fn reach(recs: &[Node], s: usize, seen: &mut Vec<bool>) {
    seen[s] = true;
    let (mask, first) = recs[s].get_raw();
    for i in 0..8u32 {
        if mask & (1 << i) != 0 {
            let slot = (first + (mask & ((1 << i) - 1)).count_ones()) as usize;
            reach(recs, slot, seen);
        }
    }
}

#[test]
fn encoded_layout_is_exact() {
    let d = sample_dag();
    let recs = encode(&d);
    let edges: usize = d.nodes.iter().map(|n| n.children.len()).sum();
    assert_eq!(recs.len(), 1 + edges);
    assert_eq!(d.root, d.node_count() - 1);
    for (s, r) in recs.iter().enumerate() {
        if r.childmask != 0 {
            assert!(s < r.child as usize);
            assert!(r.child as usize + (r.childmask.count_ones() as usize) <= recs.len());
        }
    }
    let mut seen = vec![false; recs.len()];
    reach(&recs, 0, &mut seen);
    assert!(seen.iter().all(|&b| b));
    assert_eq!(encode(&d), recs);
}

#[test]
fn equal_grids_give_equal_buffers() {
    let a = grid(8, 8, 8, &[(1, 2, 3), (7, 0, 4)]);
    let b = a.clone();
    let va = VoxelDAG::from_voxel_data(&a, (8, 8, 8), 3).unwrap();
    let vb = VoxelDAG::from_voxel_data(&b, (8, 8, 8), 3).unwrap();
    assert_eq!(va.records, vb.records);
    let da = compact(&Octree::from_voxel_data(&a, (8, 8, 8), 3).unwrap());
    let db = compact(&Octree::from_voxel_data(&b, (8, 8, 8), 3).unwrap());
    assert_eq!(da.node_count(), db.node_count());
}

#[test]
fn empty_grid_pipeline_is_one_leaf_record() {
    for level in 1..4u32 {
        let v = VoxelDAG::from_voxel_data(&vec![0u8; 8], (2, 2, 2), level).unwrap();
        assert_eq!(v.records, vec![Node::new(0, 0)]);
    }
}
