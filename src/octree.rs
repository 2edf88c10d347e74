use vstd::prelude::*;

use crate::aabb::{max3, BoundingBox};
use crate::bits::{has_bit, lemma_empty_mask, lemma_full_mask, rank};
use crate::graph::{GNode, closed, follow, lemma_follow_concat, mask_at, reachable, reaches};
use crate::grid::{grid_matches, node_contains_geometry, region_occupied};

verus! {

/// Why an octree could not be built.
#[derive(Clone, Copy, Debug, PartialEq, Eq, Structural)]
pub enum BuildError {
    /// The requested depth is below one.
    InvalidLevel,
    /// The material array does not hold one byte per voxel.
    GridSizeMismatch,
    /// The compacted DAG has more nodes than 32-bit record slots can address.
    TooManyNodes,
}

/// One node of the octree arena.
#[derive(Clone, Copy, Debug)]
pub struct Octant {
    /// Index of the parent node; `None` for the root.
    pub parent: Option<usize>,
    /// Index of the first of eight consecutive children; `None` for a leaf.
    pub first_child: Option<usize>,
    /// Depth below the root.
    pub level: u32,
    pub is_leaf: bool,
    /// Lower corner of the node's cube, in half-voxel units from the lower
    /// corner of the bounding cube.
    pub position: (u64, u64, u64),
}

/// A sparse octree over a voxel grid, held in an arena indexed by `usize`.
pub struct Octree {
    pub octants: Vec<Octant>,
    pub max_level: u32,
    pub size: (u32, u32, u32),
    /// Side of the bounding cube, in voxels.
    pub side: u64,
}

/// The first power of two that is at least `m`, searching upward from `p`.
pub open spec fn pow2_at_least(m: int, p: int) -> int
    decreases (if p < m { m - p } else { 0 }),
{
    if p <= 0 || p >= m {
        p
    } else {
        pow2_at_least(m, 2 * p)
    }
}

/// Side, in voxels, of the bounding cube of a grid: the first power of two
/// that is at least its longest dimension.
pub open spec fn cube_side(size: (u32, u32, u32)) -> int {
    pow2_at_least(max3(size.0 as int, size.1 as int, size.2 as int), 1)
}

/// Side of the bounding cube in half-voxel units.
pub open spec fn cube_width(size: (u32, u32, u32)) -> int {
    2 * cube_side(size)
}

/// Where voxel 0 of each axis starts, in half-voxel units from the lower corner
/// of the bounding cube (the cube shares the grid's center).
pub open spec fn voxel_offset(size: (u32, u32, u32)) -> (int, int, int) {
    (cube_side(size) - size.0, cube_side(size) - size.1, cube_side(size) - size.2)
}

/// Side of a child's cube: half the parent's, down to one half-voxel unit.
pub open spec fn child_extent(e: int) -> int {
    if e / 2 == 0 {
        1
    } else {
        e / 2
    }
}

/// Side, in half-voxel units, of the cube of a node at `level`.
pub open spec fn extent_at(w: int, level: int) -> int
    decreases level,
{
    if level <= 0 {
        w
    } else {
        child_extent(extent_at(w, level - 1))
    }
}

/// Lower corner of child `j` of a node at `pos` with side `e`: octant `j`
/// takes the upper half on x, y, z according to bits 0, 1, 2 of `j`.
pub open spec fn child_position(pos: (int, int, int), e: int, j: int) -> (int, int, int) {
    (
        pos.0 + if j % 2 == 1 { e / 2 } else { 0 },
        pos.1 + if (j / 2) % 2 == 1 { e / 2 } else { 0 },
        pos.2 + if (j / 4) % 2 == 1 { e / 2 } else { 0 },
    )
}

pub open spec fn pos_of(o: Octant) -> (int, int, int) {
    (o.position.0 as int, o.position.1 as int, o.position.2 as int)
}

/// Whether the node's cube meets a non-empty voxel.
pub open spec fn octant_occupied(o: Octant, data: Seq<u8>, size: (u32, u32, u32)) -> bool {
    region_occupied(data, size, voxel_offset(size), pos_of(o), extent_at(cube_width(size), o.level as int))
}

/// The node's cube lies inside the bounding cube.
pub open spec fn in_cube(o: Octant, w: int) -> bool {
    let e = extent_at(w, o.level as int);
    &&& 1 <= e
    &&& o.position.0 + e <= w
    &&& o.position.1 + e <= w
    &&& o.position.2 + e <= w
}

/// Node `i` is finished: a leaf exactly when it is at the depth limit or its
/// cube is empty, and otherwise the parent of eight children laid out in
/// octant order.
pub open spec fn octant_ok(os: Seq<Octant>, i: int, data: Seq<u8>, size: (u32, u32, u32), max_level: int) -> bool {
    let o = os[i];
    let e = extent_at(cube_width(size), o.level as int);
    &&& o.level <= max_level
    &&& o.is_leaf == (o.level == max_level || !octant_occupied(o, data, size))
    &&& match o.first_child {
        None => o.is_leaf,
        Some(f) => {
            &&& !o.is_leaf
            &&& i < f
            &&& f + 8 <= os.len()
            &&& forall|j: int|
                0 <= j < 8 ==> {
                    &&& (#[trigger] os[f + j]).parent == Some(i as usize)
                    &&& os[f + j].level == o.level + 1
                    &&& pos_of(os[f + j]) == child_position(pos_of(o), e, j)
                }
        },
    }
}

/// Node `n` hangs from a parent before it that lists it among its children.
pub open spec fn parent_ok(os: Seq<Octant>, n: int) -> bool {
    match os[n].parent {
        None => false,
        Some(p) => {
            &&& p < n
            &&& match os[p as int].first_child {
                None => false,
                Some(f) => f <= n < f + 8,
            }
        },
    }
}

/// Node 0 is the root, covering the whole bounding cube.
pub open spec fn root_ok(os: Seq<Octant>) -> bool {
    &&& os.len() >= 1
    &&& os[0].parent is None
    &&& os[0].level == 0
    &&& os[0].position == (0u64, 0u64, 0u64)
}

/// Nodes are stored level by level: depth never decreases along the arena.
pub open spec fn levels_sorted(os: Seq<Octant>) -> bool {
    forall|a: int, b: int| 0 <= a < b < os.len() ==> (#[trigger] os[a]).level <= (#[trigger] os[b]).level
}

/// No node is deeper than `level`.
pub open spec fn levels_at_most(os: Seq<Octant>, level: int) -> bool {
    forall|n: int| 0 <= n < os.len() ==> (#[trigger] os[n]).level <= level
}

/// The arena holds exactly the octree of the grid: rooted at 0, every node
/// finished, every other node reachable through its parent, stored breadth first.
pub open spec fn tree_ok(os: Seq<Octant>, data: Seq<u8>, size: (u32, u32, u32), max_level: int) -> bool {
    &&& root_ok(os)
    &&& levels_sorted(os)
    &&& forall|n: int| 0 <= n < os.len() ==> #[trigger] octant_ok(os, n, data, size, max_level)
    &&& forall|n: int| 1 <= n < os.len() ==> #[trigger] parent_ok(os, n)
}

/// A node not yet examined, at depth `level`.
pub open spec fn pending(o: Octant, level: int) -> bool {
    &&& o.level == level
    &&& !o.is_leaf
    &&& o.first_child is None
}

/// The arena during breadth-first construction: nodes before `start` are
/// finished, the rest form the frontier at depth `level`.
pub open spec fn building(
    os: Seq<Octant>,
    start: int,
    level: int,
    data: Seq<u8>,
    size: (u32, u32, u32),
    max_level: int,
) -> bool {
    &&& 0 <= start <= os.len()
    &&& root_ok(os)
    &&& forall|n: int| 0 <= n < start ==> #[trigger] octant_ok(os, n, data, size, max_level)
    &&& forall|n: int| start <= n < os.len() ==> #[trigger] pending(os[n], level)
    &&& forall|n: int| 1 <= n < os.len() ==> #[trigger] parent_ok(os, n)
    &&& forall|n: int| 0 <= n < os.len() ==> #[trigger] in_cube(os[n], cube_width(size))
    &&& levels_sorted(os)
    &&& levels_at_most(os, level)
}

/// Structure of octant `i`: no children, or eight in octant order.
pub open spec fn octant_node(os: Seq<Octant>, i: int) -> GNode {
    match os[i].first_child {
        Some(f) => (0xffu8, Seq::new(8, |j: int| (f + j) as usize)),
        None => (0u8, Seq::empty()),
    }
}

impl Octree {
    /// The tree's structure, node by node.
    pub open spec fn graph(&self) -> Seq<GNode> {
        Seq::new(self.octants@.len(), |i: int| octant_node(self.octants@, i))
    }

    /// A root; every node's eight children stored after it in the arena; every
    /// other node among the children of its parent.
    pub open spec fn well_formed(&self) -> bool {
        &&& 1 <= self.octants@.len() <= usize::MAX
        &&& forall|n: int| 1 <= n < self.octants@.len() ==> #[trigger] parent_ok(self.octants@, n)
        &&& forall|i: int|
            0 <= i < self.octants@.len() ==> match (#[trigger] self.octants@[i]).first_child {
                Some(f) => i < f && f + 8 <= self.octants@.len(),
                None => true,
            }
    }

    /// The tree has two distinct leaves.
    pub open spec fn has_two_leaves(&self) -> bool {
        exists|a: int, b: int|
            0 <= a < self.octants@.len() && 0 <= b < self.octants@.len() && a != b
                && (#[trigger] self.octants@[a]).first_child is None && (#[trigger] self.octants@[b]).first_child is None
    }

    /// A well-formed tree's structure refers only to its own nodes.
    pub proof fn lemma_graph_closed(&self)
        requires
            self.well_formed(),
        ensures
            closed(self.graph()),
            self.graph().len() == self.octants@.len(),
    {
        assert forall|k: int, t: int| 0 <= k < self.graph().len() && 0 <= t < self.graph()[k].1.len()
            implies #[trigger] self.graph()[k].1[t] < self.graph().len() by {
            assert(self.octants@[k] == self.octants@[k]);
        }
    }

    /// A built octree is well formed.
    pub proof fn lemma_built_well_formed(&self, data: Seq<u8>, size: (u32, u32, u32), max_level: u32)
        requires
            self.built_from(data, size, max_level),
        ensures
            self.well_formed(),
    {
        assert(tree_ok(self.octants@, data, size, max_level as int));
        assert forall|i: int| 0 <= i < self.octants@.len() implies match (#[trigger] self.octants@[i]).first_child {
            Some(f) => i < f && f + 8 <= self.octants@.len(),
            None => true,
        } by {
            assert(octant_ok(self.octants@, i, data, size, max_level as int));
        }
    }

    /// Every node of a well-formed tree is reached from the root.
    pub proof fn lemma_reachable(&self)
        requires
            self.well_formed(),
        ensures
            reachable(self.graph(), 0),
    {
        assert forall|k: int| 0 <= k < self.octants@.len() implies #[trigger] reaches(self.graph(), 0, k) by {
            self.lemma_reaches(k);
        }
    }

    proof fn lemma_reaches(&self, k: int)
        requires
            self.well_formed(),
            0 <= k < self.octants@.len(),
        ensures
            reaches(self.graph(), 0, k),
        decreases k,
    {
        let g = self.graph();
        let os = self.octants@;
        if k == 0 {
            assert(follow(g, 0, Seq::<int>::empty()) == Some(0int));
        } else {
            assert(parent_ok(os, k));
            let p = os[k].parent.unwrap() as int;
            let f = os[p].first_child.unwrap() as int;
            assert(os[p] == os[p]);
            self.lemma_reaches(p);
            let pp = choose|path: Seq<int>| #[trigger] follow(g, 0, path) == Some(p);
            let j = k - f;
            lemma_full_mask(j);
            lemma_full_mask(8);
            assert(has_bit(g[p].0, j) && rank(g[p].0, j) == j);
            assert(g[p].1[j] == (f + j) as usize);
            assert(seq![j].drop_first() =~= Seq::<int>::empty());
            assert(follow(g, p, seq![j]) == follow(g, k, Seq::<int>::empty()));
            lemma_follow_concat(g, 0, pp, seq![j]);
            assert(follow(g, 0, pp + seq![j]) == Some(k));
        }
    }
}

/// Whether the cell at depth `level` with lower corner `pos` is split: it is
/// above the depth limit and meets a non-empty voxel.
pub open spec fn cell_split(data: Seq<u8>, size: (u32, u32, u32), max_level: int, level: int, pos: (int, int, int)) -> bool {
    level < max_level && region_occupied(data, size, voxel_offset(size), pos, extent_at(cube_width(size), level))
}

/// The octree of a grid, read directly off the geometry: the mask found by
/// descending `path` from the cell at (`level`, `pos`); a split cell has all
/// eight octants, any other cell none.
pub open spec fn cell_mask_at(
    data: Seq<u8>,
    size: (u32, u32, u32),
    max_level: int,
    level: int,
    pos: (int, int, int),
    path: Seq<int>,
) -> Option<u8>
    decreases path.len(),
{
    if path.len() == 0 {
        Some(if cell_split(data, size, max_level, level, pos) { 0xffu8 } else { 0u8 })
    } else if cell_split(data, size, max_level, level, pos) && 0 <= path[0] < 8 {
        cell_mask_at(
            data,
            size,
            max_level,
            level + 1,
            child_position(pos, extent_at(cube_width(size), level), path[0]),
            path.drop_first(),
        )
    } else {
        None
    }
}

/// The octree of a grid, from the bounding cube down.
pub open spec fn grid_mask_at(data: Seq<u8>, size: (u32, u32, u32), max_level: int, path: Seq<int>) -> Option<u8> {
    cell_mask_at(data, size, max_level, 0, (0, 0, 0), path)
}

impl Octree {
    /// The number of nodes in the arena.
    pub fn node_count(&self) -> (r: usize)
        ensures
            r == self.octants@.len(),
    {
        self.octants.len()
    }

    /// A built octree is the grid's octree: from any node, every path meets
    /// the masks that the geometry dictates.
    pub proof fn lemma_built_expansion(&self, data: Seq<u8>, size: (u32, u32, u32), max_level: u32, i: int, path: Seq<int>)
        requires
            self.built_from(data, size, max_level),
            0 <= i < self.octants@.len(),
        ensures
            mask_at(self.graph(), i, path) == cell_mask_at(
                data,
                size,
                max_level as int,
                self.octants@[i].level as int,
                pos_of(self.octants@[i]),
                path,
            ),
        decreases path.len(),
    {
        let os = self.octants@;
        let g = self.graph();
        let o = os[i];
        assert(octant_ok(os, i, data, size, max_level as int));
        lemma_full_mask(8);
        lemma_empty_mask(8);
        if path.len() > 0 {
            let j = path[0];
            match o.first_child {
                Some(f) => {
                    if 0 <= j < 8 {
                        lemma_full_mask(j);
                        assert(has_bit(g[i].0, j) && rank(g[i].0, j) == j);
                        assert(g[i].1[j] == (f + j) as usize);
                        assert(f + j == (f + j) as usize);
                        assert(follow(g, i, path) == follow(g, f + j, path.drop_first()));
                        assert(octant_ok(os, f + j, data, size, max_level as int));
                        self.lemma_built_expansion(data, size, max_level, f + j, path.drop_first());
                    } else {
                        assert(!has_bit(g[i].0, j));
                    }
                },
                None => {
                    if 0 <= j < 8 {
                        lemma_empty_mask(j);
                    }
                    assert(!has_bit(g[i].0, j));
                },
            }
        }
    }
}

impl Octree {
    /// The octree of the grid `data` of dimensions `size`, to depth `max_level`.
    pub open spec fn built_from(&self, data: Seq<u8>, size: (u32, u32, u32), max_level: u32) -> bool {
        &&& self.max_level == max_level
        &&& self.size == size
        &&& self.side == cube_side(size)
        // child indices `f + j` are `usize` values
        &&& self.octants@.len() <= usize::MAX
        &&& tree_ok(self.octants@, data, size, max_level as int)
    }
}

proof fn lemma_pow2_at_least(m: int, p: int)
    requires
        1 <= p,
    ensures
        pow2_at_least(m, p) >= m,
        pow2_at_least(m, p) >= p,
        pow2_at_least(m, p) == p || pow2_at_least(m, p) < 2 * m,
    decreases (if p < m { m - p } else { 0 }),
{
    if p < m {
        lemma_pow2_at_least(m, 2 * p);
    }
}

/// The first power of two that is at least `m`.
fn next_pow2(m: u64) -> (p: u64)
    requires
        m <= 0x1_0000_0000,
    ensures
        p == pow2_at_least(m as int, 1),
        1 <= p <= 0x2_0000_0000,
{
    proof {
        lemma_pow2_at_least(m as int, 1);
    }
    let mut p: u64 = 1;
    while p < m
        invariant
            1 <= p <= 0x2_0000_0000,
            m <= 0x1_0000_0000,
            pow2_at_least(m as int, p as int) == pow2_at_least(m as int, 1),
        decreases (if p < m { m - p } else { 0 }),
    {
        p = p * 2;
    }
    p
}

/// `2` to the power `k`.
pub open spec fn pow2(k: nat) -> nat
    decreases k,
{
    if k == 0 {
        1
    } else {
        2 * pow2((k - 1) as nat)
    }
}

/// The depth at which a cell of the bounding cube is one voxel wide:
/// `ceil(log2(max(sx, sy, sz)))`, and 0 for a grid at most one voxel wide.
pub fn recommended_level(size: (u32, u32, u32)) -> (r: u32)
    ensures
        pow2(r as nat) == cube_side(size),
{
    let m = max3_u32(size.0, size.1, size.2) as u64;
    let mut p: u64 = 1;
    let mut k: u32 = 0;
    while p < m
        invariant
            1 <= p <= 0x2_0000_0000,
            m == max3(size.0 as int, size.1 as int, size.2 as int),
            m <= 0xffff_ffff,
            p == pow2(k as nat),
            k <= 33,
            pow2_at_least(m as int, p as int) == cube_side(size),
        decreases (if p < m { m - p } else { 0 }),
    {
        proof {
            if k >= 32 {
                lemma_pow2_ge(k as nat);
            }
        }
        p = p * 2;
        k = k + 1;
    }
    k
}

proof fn lemma_pow2_ge(k: nat)
    ensures
        pow2(k) >= k,
        k >= 32 ==> pow2(k) >= 0x1_0000_0000,
    decreases k,
{
    if k > 0 {
        lemma_pow2_ge((k - 1) as nat);
        if k >= 33 {
            assert(pow2((k - 1) as nat) >= 0x1_0000_0000);
        } else if k == 32 {
            lemma_pow2_32();
        }
    }
}

proof fn lemma_pow2_32()
    ensures
        pow2(32) == 0x1_0000_0000,
{
    reveal_with_fuel(pow2, 33);
}

fn max3_u32(a: u32, b: u32, c: u32) -> (r: u32)
    ensures
        r == max3(a as int, b as int, c as int),
{
    if a >= b && a >= c {
        a
    } else if b >= c {
        b
    } else {
        c
    }
}

proof fn lemma_child_in_cube(w: int, level: int, pos: (int, int, int), j: int)
    requires
        0 <= level,
        1 <= extent_at(w, level),
        0 <= pos.0 && pos.0 + extent_at(w, level) <= w,
        0 <= pos.1 && pos.1 + extent_at(w, level) <= w,
        0 <= pos.2 && pos.2 + extent_at(w, level) <= w,
        0 <= j < 8,
    ensures
        extent_at(w, level + 1) == child_extent(extent_at(w, level)),
        1 <= extent_at(w, level + 1),
        0 <= child_position(pos, extent_at(w, level), j).0,
        child_position(pos, extent_at(w, level), j).0 + extent_at(w, level + 1) <= w,
        child_position(pos, extent_at(w, level), j).1 + extent_at(w, level + 1) <= w,
        child_position(pos, extent_at(w, level), j).2 + extent_at(w, level + 1) <= w,
{
    let e = extent_at(w, level);
    assert(extent_at(w, level + 1) == child_extent(e));
    assert(0 <= e / 2);
}

/// Examines every node of the frontier `[start, octants.len())`, all at depth
/// `level`: an empty one becomes a leaf, an occupied one gets eight children,
/// which form the next frontier. Returns where that frontier starts.
fn generate_level(
    octants: &mut Vec<Octant>,
    start: usize,
    level: u32,
    ext: u64,
    data: &[u8],
    size: (u32, u32, u32),
    off: (u64, u64, u64),
    max_level: u32,
) -> (next: usize)
    requires
        building(old(octants)@, start as int, level as int, data@, size, max_level as int),
        level < max_level,
        grid_matches(data@, size),
        ext == extent_at(cube_width(size), level as int),
        (off.0 as int, off.1 as int, off.2 as int) == voxel_offset(size),
        cube_width(size) <= 0x4_0000_0000,
    ensures
        next == old(octants)@.len(),
        next <= final(octants)@.len(),
        building(final(octants)@, next as int, level + 1, data@, size, max_level as int),
        forall|n: int| 0 <= n < start ==> #[trigger] final(octants)@[n] == old(octants)@[n],
        forall|n: int|
            start <= n < next ==> {
                &&& (#[trigger] final(octants)@[n]).parent == old(octants)@[n].parent
                &&& final(octants)@[n].level == old(octants)@[n].level
                &&& final(octants)@[n].position == old(octants)@[n].position
                &&& (final(octants)@[n].first_child matches Some(f) ==> next <= f)
            },
        forall|n: int|
            next <= n < final(octants)@.len() ==> ((#[trigger] final(octants)@[n]).parent matches Some(p) && start <= p < next),
{
    let ghost w = cube_width(size);
    let ghost os0 = octants@;
    let end = octants.len();
    proof {
        assert forall|n: int| start <= n < end implies (#[trigger] octants@[n]).first_child is None by {
            assert(pending(octants@[n], level as int));
        }
    }
    let mut i = start;
    while i < end
        invariant
            start <= i <= end <= octants@.len(),
            level < max_level,
            grid_matches(data@, size),
            ext == extent_at(w, level as int),
            w == cube_width(size),
            w <= 0x4_0000_0000,
            (off.0 as int, off.1 as int, off.2 as int) == voxel_offset(size),
            root_ok(octants@),
            levels_sorted(octants@),
            levels_at_most(octants@, level + 1),
            forall|n: int| 0 <= n < i ==> #[trigger] octant_ok(octants@, n, data@, size, max_level as int),
            forall|n: int| i <= n < end ==> #[trigger] pending(octants@[n], level as int),
            forall|n: int| end <= n < octants@.len() ==> #[trigger] pending(octants@[n], level + 1),
            forall|n: int| 1 <= n < octants@.len() ==> #[trigger] parent_ok(octants@, n),
            forall|n: int| 0 <= n < octants@.len() ==> #[trigger] in_cube(octants@[n], w),
            os0.len() == end,
            forall|n: int| 0 <= n < start ==> #[trigger] octants@[n] == os0[n],
            forall|n: int|
                start <= n < end ==> {
                    &&& (#[trigger] octants@[n]).parent == os0[n].parent
                    &&& octants@[n].level == os0[n].level
                    &&& octants@[n].position == os0[n].position
                    &&& (octants@[n].first_child matches Some(f) ==> end <= f)
                },
            forall|n: int| end <= n < octants@.len() ==> ((#[trigger] octants@[n]).parent matches Some(p) && start <= p < i),
        decreases end - i,
    {
        let o = octants[i];
        assert(in_cube(octants@[i as int], w));
        assert(pending(octants@[i as int], level as int));
        let ghost before = octants@;
        if node_contains_geometry(data, size, off, o.position, ext) {
            let f = octants.len();
            let half = ext / 2;
            let mut j: usize = 0;
            while j < 8
                invariant
                    0 <= j <= 8,
                    octants@.len() == f + j,
                    f == before.len(),
                    i < end <= f,
                    o == before[i as int],
                    level < max_level,
                    ext == extent_at(w, level as int),
                    half == ext / 2,
                    in_cube(o, w),
                    o.level == level,
                    1 <= ext,
                    w <= 0x4_0000_0000,
                    forall|n: int| 0 <= n < f ==> octants@[n] == before[n],
                    levels_sorted(octants@),
                    levels_at_most(octants@, level + 1),
                    forall|k: int|
                        0 <= k < j ==> {
                            &&& (#[trigger] octants@[f + k]).parent == Some(i)
                            &&& octants@[f + k].level == level + 1
                            &&& pending(octants@[f + k], level + 1)
                            &&& pos_of(octants@[f + k]) == child_position(pos_of(o), ext as int, k)
                        },
                decreases 8 - j,
            {
                proof {
                    lemma_child_in_cube(w, level as int, pos_of(o), j as int);
                }
                let dx: u64 = if j % 2 == 1 { half } else { 0 };
                let dy: u64 = if (j / 2) % 2 == 1 { half } else { 0 };
                let dz: u64 = if (j / 4) % 2 == 1 { half } else { 0 };
                octants.push(Octant {
                    parent: Some(i),
                    first_child: None,
                    level: level + 1,
                    is_leaf: false,
                    position: (o.position.0 + dx, o.position.1 + dy, o.position.2 + dz),
                });
                proof {
                    let os = octants@;
                    assert forall|a: int, b: int| 0 <= a < b < os.len() implies (#[trigger] os[a]).level <= (#[trigger] os[b]).level by {
                        if b == os.len() - 1 {
                            assert(os[a] == os.drop_last()[a]);
                        } else {
                            assert(os[a] == os.drop_last()[a] && os[b] == os.drop_last()[b]);
                        }
                    }
                    assert forall|n: int| 0 <= n < os.len() implies (#[trigger] os[n]).level <= level + 1 by {
                        if n < os.len() - 1 {
                            assert(os[n] == os.drop_last()[n]);
                        }
                    }
                }
                j = j + 1;
            }
            octants.set(
                i,
                Octant {
                    parent: o.parent,
                    first_child: Some(f),
                    level: o.level,
                    is_leaf: false,
                    position: o.position,
                },
            );
            proof {
                let os = octants@;
                assert forall|n: int| 0 <= n <= i implies #[trigger] octant_ok(os, n, data@, size, max_level as int) by {
                    if n < i {
                        assert(octant_ok(before, n, data@, size, max_level as int));
                        match before[n].first_child {
                            None => {},
                            Some(ff) => {
                                assert forall|k: int| 0 <= k < 8 implies (#[trigger] os[ff + k]).parent == before[ff + k].parent
                                    && os[ff + k].level == before[ff + k].level && os[ff + k].position == before[ff + k].position by {
                                    if ff + k == i {
                                        assert(os[i as int].parent == o.parent);
                                    }
                                }
                            },
                        }
                    } else {
                        assert forall|k: int| 0 <= k < 8 implies {
                            &&& (#[trigger] os[f + k]).parent == Some(i)
                            &&& os[f + k].level == os[n].level + 1
                            &&& pos_of(os[f + k]) == child_position(pos_of(os[n]), ext as int, k)
                        } by {
                            assert(octants@[f + k] == os[f + k]);
                        }
                    }
                }
                assert forall|n: int| 1 <= n < os.len() implies #[trigger] parent_ok(os, n) by {
                    if n < f {
                        assert(parent_ok(before, n));
                    } else {
                        assert(os[f + (n - f)].parent == Some(i));
                    }
                }
                assert forall|n: int| 0 <= n < os.len() implies #[trigger] in_cube(os[n], w) by {
                    if n < f {
                        assert(in_cube(before[n], w));
                    } else {
                        lemma_child_in_cube(w, level as int, pos_of(o), n - f);
                        assert(os[f + (n - f)].level == level + 1);
                    }
                }
                assert forall|n: int| i < n < end implies #[trigger] pending(os[n], level as int) by {
                    assert(pending(before[n], level as int));
                }
                assert forall|n: int| 0 <= n < start implies #[trigger] os[n] == os0[n] by {
                    assert(os[n] == before[n]);
                }
                assert forall|n: int| start <= n < end implies {
                    &&& (#[trigger] os[n]).parent == os0[n].parent
                    &&& os[n].level == os0[n].level
                    &&& os[n].position == os0[n].position
                    &&& (os[n].first_child matches Some(ff) ==> end <= ff)
                } by {
                    if n != i {
                        assert(os[n] == before[n]);
                    }
                }
                assert forall|n: int| end <= n < os.len() implies ((#[trigger] os[n]).parent matches Some(p) && start <= p < i + 1) by {
                    if n < f {
                        assert(os[n] == before[n]);
                    } else {
                        assert(os[f + (n - f)].parent == Some(i));
                    }
                }
                assert forall|n: int| end <= n < os.len() implies #[trigger] pending(os[n], level + 1) by {
                    if n >= f {
                        assert(pending(os[f + (n - f)], level + 1));
                    } else {
                        assert(pending(before[n], level + 1));
                    }
                }
            }
        } else {
            octants.set(
                i,
                Octant {
                    parent: o.parent,
                    first_child: None,
                    level: o.level,
                    is_leaf: true,
                    position: o.position,
                },
            );
            proof {
                let os = octants@;
                assert forall|n: int| 0 <= n <= i implies #[trigger] octant_ok(os, n, data@, size, max_level as int) by {
                    if n < i {
                        assert(octant_ok(before, n, data@, size, max_level as int));
                        match before[n].first_child {
                            None => {},
                            Some(ff) => {
                                assert forall|k: int| 0 <= k < 8 implies (#[trigger] os[ff + k]).parent == before[ff + k].parent
                                    && os[ff + k].level == before[ff + k].level && os[ff + k].position == before[ff + k].position by {
                                    if ff + k == i {
                                        assert(os[i as int].parent == o.parent);
                                    }
                                }
                            },
                        }
                    }
                }
                assert forall|n: int| i < n < end implies #[trigger] pending(os[n], level as int) by {
                    assert(pending(before[n], level as int));
                }
                assert forall|n: int| 0 <= n < start implies #[trigger] os[n] == os0[n] by {
                    assert(os[n] == before[n]);
                }
                assert forall|n: int| start <= n < end implies {
                    &&& (#[trigger] os[n]).parent == os0[n].parent
                    &&& os[n].level == os0[n].level
                    &&& os[n].position == os0[n].position
                    &&& (os[n].first_child matches Some(ff) ==> end <= ff)
                } by {
                    if n != i {
                        assert(os[n] == before[n]);
                    }
                }
                assert forall|n: int| end <= n < os.len() implies ((#[trigger] os[n]).parent matches Some(p) && start <= p < i + 1) by {
                    assert(os[n] == before[n]);
                }
                assert forall|n: int| end <= n < os.len() implies #[trigger] pending(os[n], level + 1) by {
                    assert(pending(before[n], level + 1));
                }
                assert forall|n: int| 1 <= n < os.len() implies #[trigger] parent_ok(os, n) by {
                    assert(parent_ok(before, n));
                }
                assert forall|n: int| 0 <= n < os.len() implies #[trigger] in_cube(os[n], w) by {
                    assert(in_cube(before[n], w));
                }
            }
        }
        i = i + 1;
    }
    end
}

impl Octree {
    /// Builds the octree of the grid `data` (dimensions `data_size`, voxel
    /// `(x, y, z)` at `x + y * sx + z * sx * sy`) breadth first, down to
    /// depth `max_level`.
    pub fn from_voxel_data(data: &[u8], data_size: (u32, u32, u32), max_level: u32) -> (r: Result<
        Octree,
        BuildError,
    >)
        ensures
            max_level == 0 ==> r == Err::<Octree, BuildError>(BuildError::InvalidLevel),
            max_level >= 1 && !grid_matches(data@, data_size) ==> r == Err::<Octree, BuildError>(
                BuildError::GridSizeMismatch,
            ),
            max_level >= 1 && grid_matches(data@, data_size) ==> r is Ok,
            r matches Ok(t) ==> t.built_from(data@, data_size, max_level),
    {
        if max_level < 1 {
            return Err(BuildError::InvalidLevel);
        }
        let (sx, sy, sz) = data_size;
        proof {
            assert(0 <= sx as int * sy as int <= 0xffff_ffff * 0xffff_ffff) by (nonlinear_arith)
                requires 0 <= sx <= 0xffff_ffff, 0 <= sy <= 0xffff_ffff;
            assert(0 <= (sx as int * sy as int) * sz as int <= (0xffff_ffff * 0xffff_ffff) * 0xffff_ffff) by (nonlinear_arith)
                requires 0 <= sx as int * sy as int <= 0xffff_ffff * 0xffff_ffff, 0 <= sz <= 0xffff_ffff;
        }
        let expected: u128 = sx as u128 * sy as u128 * sz as u128;
        if data.len() as u128 != expected {
            return Err(BuildError::GridSizeMismatch);
        }
        let mut bbox = BoundingBox::new((0, 0, 0), (sx as i64, sy as i64, sz as i64));
        bbox.square();
        let longest = (bbox.max.0 - bbox.min.0) / 2;
        let side = next_pow2(longest as u64);
        let c = bbox.center();
        proof {
            lemma_pow2_at_least(max3(sx as int, sy as int, sz as int), 1);
        }
        let off: (u64, u64, u64) = (side - c.0 as u64, side - c.1 as u64, side - c.2 as u64);
        let w: u64 = 2 * side;
        let mut octants: Vec<Octant> = vec![
            Octant { parent: None, first_child: None, level: 0, is_leaf: false, position: (0, 0, 0) },
        ];
        let mut start: usize = 0;
        let mut level: u32 = 0;
        let mut ext: u64 = w;
        proof {
            assert(in_cube(octants@[0], w as int));
        }
        while level < max_level
            invariant
                building(octants@, start as int, level as int, data@, data_size, max_level as int),
                level <= max_level,
                grid_matches(data@, data_size),
                w == cube_width(data_size),
                w <= 0x4_0000_0000,
                ext == extent_at(w as int, level as int),
                (off.0 as int, off.1 as int, off.2 as int) == voxel_offset(data_size),
            decreases max_level - level,
        {
            start = generate_level(&mut octants, start, level, ext, data, data_size, off, max_level);
            ext = if ext / 2 == 0 {
                1
            } else {
                ext / 2
            };
            level = level + 1;
        }
        let mut i = start;
        while i < octants.len()
            invariant
                start <= i <= octants@.len(),
                level == max_level,
                root_ok(octants@),
                levels_sorted(octants@),
                forall|n: int| 0 <= n < i ==> #[trigger] octant_ok(octants@, n, data@, data_size, max_level as int),
                forall|n: int| i <= n < octants@.len() ==> #[trigger] pending(octants@[n], level as int),
                forall|n: int| 1 <= n < octants@.len() ==> #[trigger] parent_ok(octants@, n),
            decreases octants@.len() - i,
        {
            let o = octants[i];
            let ghost before = octants@;
            assert(pending(before[i as int], level as int));
            octants.set(
                i,
                Octant {
                    parent: o.parent,
                    first_child: None,
                    level: o.level,
                    is_leaf: true,
                    position: o.position,
                },
            );
            proof {
                let os = octants@;
                assert forall|n: int| 0 <= n <= i implies #[trigger] octant_ok(os, n, data@, data_size, max_level as int) by {
                    if n < i {
                        assert(octant_ok(before, n, data@, data_size, max_level as int));
                        match before[n].first_child {
                            None => {},
                            Some(ff) => {
                                assert forall|k: int| 0 <= k < 8 implies (#[trigger] os[ff + k]).parent == before[ff + k].parent
                                    && os[ff + k].level == before[ff + k].level && os[ff + k].position == before[ff + k].position by {
                                    if ff + k == i {
                                        assert(os[i as int].parent == o.parent);
                                    }
                                }
                            },
                        }
                    }
                }
                assert forall|n: int| i < n < os.len() implies #[trigger] pending(os[n], level as int) by {
                    assert(pending(before[n], level as int));
                }
                assert forall|n: int| 1 <= n < os.len() implies #[trigger] parent_ok(os, n) by {
                    assert(parent_ok(before, n));
                }
                assert forall|a: int, b: int| 0 <= a < b < os.len() implies (#[trigger] os[a]).level <= (#[trigger] os[b]).level by {
                    assert(before[a].level <= before[b].level);
                }
            }
            i = i + 1;
        }
        assert(octants@.len() == i);
        Ok(Octree { octants, max_level, size: data_size, side })
    }
}

} // verus!
