use vstd::prelude::*;

use crate::dag::{Dag, compact, lemma_same_expansion_same_size};
use crate::bits::popcount;
use crate::encode::{Node, buffer_graph, encode, layout};
use crate::graph::{closed, mask_at, reaches};
use crate::grid::grid_matches;
use crate::octree::{BuildError, Octree, grid_mask_at};

verus! {

/// Most canonical nodes that the record format is built for.
pub const MAX_DAG_NODES: usize = 0x0fff_ffff;

/// The four bytes of `w`, least significant first.
pub open spec fn le_bytes(w: u32) -> Seq<u8> {
    seq![(w % 256) as u8, ((w / 256) % 256) as u8, ((w / 65536) % 256) as u8, (w / 16777216) as u8]
}

/// The GPU-ready form of a voxel grid: the records of its compacted octree,
/// root first.
pub struct VoxelDAG {
    pub records: Vec<Node>,
}

impl VoxelDAG {
    /// Builds the octree of the grid to depth `level`, compacts it into a
    /// canonical DAG and lays that out as GPU records.
    pub fn from_voxel_data(data: &[u8], data_size: (u32, u32, u32), level: u32) -> (r: Result<
        VoxelDAG,
        BuildError,
    >)
        ensures
            level == 0 ==> r == Err::<VoxelDAG, BuildError>(BuildError::InvalidLevel),
            level >= 1 && !grid_matches(data@, data_size) ==> r == Err::<VoxelDAG, BuildError>(
                BuildError::GridSizeMismatch,
            ),
            level >= 1 && grid_matches(data@, data_size) ==> (r is Ok || r == Err::<VoxelDAG, BuildError>(
                BuildError::TooManyNodes,
            )),
            r == Err::<VoxelDAG, BuildError>(BuildError::TooManyNodes) ==> forall|d: Dag|
                d.is_canonical() && (forall|path: Seq<int>|
                    #[trigger] mask_at(d.graph(), d.root as int, path) == grid_mask_at(data@, data_size, level as int, path))
                    ==> #[trigger] d.nodes@.len() > MAX_DAG_NODES,
            r matches Ok(v) ==> {
                &&& 1 <= v.records@.len() <= 8 * MAX_DAG_NODES + 1
                &&& exists|d: Dag|
                    {
                        &&& d.is_canonical()
                        &&& d.nodes@.len() <= MAX_DAG_NODES
                        &&& layout(d.graph(), d.root as int, v.records@)
                        &&& forall|path: Seq<int>|
                            #[trigger] mask_at(d.graph(), d.root as int, path) == grid_mask_at(data@, data_size, level as int, path)
                    }
                &&& forall|s: int| 0 <= s < v.records@.len() ==> (#[trigger] v.records@[s]).childmask < 256
                &&& forall|s: int| 0 <= s < v.records@.len() && (#[trigger] v.records@[s]).childmask == 0 ==> v.records@[s].child == 0
                &&& forall|s: int|
                    0 <= s < v.records@.len() && (#[trigger] v.records@[s]).childmask != 0 ==> s < v.records@[s].child
                        && v.records@[s].child + popcount(v.records@[s].childmask as u8) <= v.records@.len()
                &&& forall|s: int| 0 <= s < v.records@.len() ==> #[trigger] reaches(buffer_graph(v.records@), 0, s)
                &&& closed(buffer_graph(v.records@))
                &&& forall|path: Seq<int>|
                    #[trigger] mask_at(buffer_graph(v.records@), 0, path) == grid_mask_at(data@, data_size, level as int, path)
            },
    {
        let octree = match Octree::from_voxel_data(data, data_size, level) {
            Ok(t) => t,
            Err(e) => {
                return Err(e);
            },
        };
        proof {
            octree.lemma_built_well_formed(data@, data_size, level);
        }
        let dag = compact(&octree);
        proof {
            assert forall|path: Seq<int>|
                #[trigger] mask_at(dag.graph(), dag.root as int, path) == grid_mask_at(data@, data_size, level as int, path) by {
                octree.lemma_built_expansion(data@, data_size, level, 0, path);
                assert(mask_at(octree.graph(), 0, path) == mask_at(dag.graph(), dag.root as int, path));
            }
        }
        let count = dag.node_count();
        if count > MAX_DAG_NODES {
            proof {
                assert forall|d: Dag|
                    d.is_canonical() && (forall|path: Seq<int>|
                        #[trigger] mask_at(d.graph(), d.root as int, path) == grid_mask_at(data@, data_size, level as int, path))
                    implies #[trigger] d.nodes@.len() > MAX_DAG_NODES by {
                    assert forall|path: Seq<int>| #[trigger] mask_at(d.graph(), d.root as int, path) == mask_at(dag.graph(), dag.root as int, path) by {
                        assert(mask_at(d.graph(), d.root as int, path) == grid_mask_at(data@, data_size, level as int, path));
                    }
                    lemma_same_expansion_same_size(&d, &dag);
                }
            }
            return Err(BuildError::TooManyNodes);
        }
        let records = encode(&dag);
        Ok(VoxelDAG { records })
    }

    /// Number of records.
    pub fn node_count(&self) -> (r: u32)
        requires
            self.records@.len() <= u32::MAX,
        ensures
            r == self.records@.len(),
    {
        self.records.len() as u32
    }

    /// The records as bytes for upload: per record the mask word, then the
    /// first-child word, each least significant byte first.
    pub fn as_bytes(&self) -> (r: Vec<u8>)
        ensures
            r@.len() == 8 * self.records@.len(),
            forall|s: int, b: int|
                0 <= s < self.records@.len() && 0 <= b < 4 ==> {
                    &&& #[trigger] r@[8 * s + b] == le_bytes(self.records@[s].childmask)[b]
                    &&& r@[8 * s + 4 + b] == le_bytes(self.records@[s].child)[b]
                },
    {
        let mut out: Vec<u8> = Vec::new();
        let mut s: usize = 0;
        while s < self.records.len()
            invariant
                s <= self.records@.len(),
                out@.len() == 8 * s,
                forall|q: int, b: int|
                    0 <= q < s && 0 <= b < 4 ==> {
                        &&& #[trigger] out@[8 * q + b] == le_bytes(self.records@[q].childmask)[b]
                        &&& out@[8 * q + 4 + b] == le_bytes(self.records@[q].child)[b]
                    },
            decreases self.records@.len() - s,
        {
            let rec = self.records[s];
            let ghost out0 = out@;
            push_word(&mut out, rec.childmask);
            push_word(&mut out, rec.child);
            proof {
                assert forall|q: int, b: int|
                    0 <= q < s + 1 && 0 <= b < 4 implies {
                        &&& #[trigger] out@[8 * q + b] == le_bytes(self.records@[q].childmask)[b]
                        &&& out@[8 * q + 4 + b] == le_bytes(self.records@[q].child)[b]
                    } by {
                    if q < s {
                        assert(out@[8 * q + b] == out0[8 * q + b]);
                        assert(out@[8 * q + 4 + b] == out0[8 * q + 4 + b]);
                    }
                }
            }
            s = s + 1;
        }
        out
    }
}

/// Appends the four bytes of `w`, least significant first.
fn push_word(out: &mut Vec<u8>, w: u32)
    ensures
        final(out)@ == old(out)@ + le_bytes(w),
{
    out.push((w % 256) as u8);
    out.push(((w / 256) % 256) as u8);
    out.push(((w / 65536) % 256) as u8);
    out.push((w / 16777216) as u8);
    assert(final(out)@ =~= old(out)@ + le_bytes(w));
}

} // verus!
