use vstd::prelude::*;

verus! {

/// Flat index of voxel `(x, y, z)` in a grid of dimensions `size`.
pub open spec fn voxel_index(size: (u32, u32, u32), x: int, y: int, z: int) -> int {
    x + y * size.0 + z * size.0 * size.1
}

/// Material of voxel `(x, y, z)`; `0` is empty.
pub open spec fn voxel_at(data: Seq<u8>, size: (u32, u32, u32), x: int, y: int, z: int) -> u8 {
    data[voxel_index(size, x, y, z)]
}

/// Whether the material array holds exactly one byte per voxel.
pub open spec fn grid_matches(data: Seq<u8>, size: (u32, u32, u32)) -> bool {
    data.len() == size.0 as int * size.1 as int * size.2 as int
}

/// Whether the half-open interval `[lo, lo + len)` meets voxel `v` of an axis
/// whose voxels start, in half-voxel units, at `2 * v + off` (a voxel spans two units).
pub open spec fn overlaps(lo: int, len: int, off: int, v: int) -> bool {
    2 * v + off < lo + len && lo < 2 * v + off + 2
}

/// Whether the axis-aligned cube at `pos` of side `ext` (half-voxel units,
/// measured in a frame where voxel `v` of the axis starts at `2 * v + off`)
/// meets any non-empty voxel of the grid. Voxels outside the grid count as empty.
pub open spec fn region_occupied(
    data: Seq<u8>,
    size: (u32, u32, u32),
    off: (int, int, int),
    pos: (int, int, int),
    ext: int,
) -> bool {
    exists|x: int, y: int, z: int|
        0 <= x < size.0 && 0 <= y < size.1 && 0 <= z < size.2
            && #[trigger] voxel_at(data, size, x, y, z) != 0
            && overlaps(pos.0, ext, off.0, x)
            && overlaps(pos.1, ext, off.1, y)
            && overlaps(pos.2, ext, off.2, z)
}

proof fn lemma_index_bounds(size: (u32, u32, u32), x: int, y: int, z: int)
    requires
        0 <= x < size.0,
        0 <= y < size.1,
        0 <= z < size.2,
    ensures
        0 <= y * size.0,
        y * size.0 + x < size.0 * size.1,
        0 <= z * (size.0 * size.1),
        z * (size.0 * size.1) + size.0 * size.1 <= size.0 as int * size.1 as int * size.2 as int,
        voxel_index(size, x, y, z) == x + y * size.0 + z * (size.0 * size.1),
        0 <= voxel_index(size, x, y, z) < size.0 as int * size.1 as int * size.2 as int,
{
    let a = size.0 as int;
    let b = size.1 as int;
    let c = size.2 as int;
    assert(0 <= y * a) by (nonlinear_arith)
        requires 0 <= y, 0 <= a;
    assert(y * a + x < a * b) by (nonlinear_arith)
        requires 0 <= x < a, 0 <= y < b;
    assert(0 <= z * (a * b)) by (nonlinear_arith)
        requires 0 <= z, 0 <= a, 0 <= b;
    assert(z * (a * b) + a * b <= a * b * c) by (nonlinear_arith)
        requires 0 <= z < c, 0 <= a, 0 <= b;
    assert(z * a * b == z * (a * b)) by (nonlinear_arith);
}

/// First voxel of an axis of `n` voxels that can meet `[lo, lo + len)`, and
/// one past the last, for voxel faces at `2 * v + off`.
fn axis_range(lo: u64, len: u64, off: u64, n: u32) -> (r: (u32, u32))
    requires
        lo + len < u64::MAX,
    ensures
        r.0 <= r.1 <= n,
        forall|v: int| 0 <= v < n ==> (#[trigger] overlaps(lo as int, len as int, off as int, v) <==> r.0 <= v < r.1),
{
    let first: u64 = if lo <= off { 0 } else { (lo - off) / 2 };
    let end: u64 = if lo + len <= off { 0 } else { (lo + len - off + 1) / 2 };
    let hi: u32 = if end < n as u64 { end as u32 } else { n };
    let first: u32 = if first < hi as u64 { first as u32 } else { hi };
    (first, hi)
}

/// Whether the cube at `pos` of side `ext` meets a non-empty voxel.
pub fn node_contains_geometry(
    data: &[u8],
    size: (u32, u32, u32),
    off: (u64, u64, u64),
    pos: (u64, u64, u64),
    ext: u64,
) -> (r: bool)
    requires
        grid_matches(data@, size),
        pos.0 + ext < u64::MAX,
        pos.1 + ext < u64::MAX,
        pos.2 + ext < u64::MAX,
    ensures
        r == region_occupied(
            data@,
            size,
            (off.0 as int, off.1 as int, off.2 as int),
            (pos.0 as int, pos.1 as int, pos.2 as int),
            ext as int,
        ),
{
    let ghost offi = (off.0 as int, off.1 as int, off.2 as int);
    let ghost posi = (pos.0 as int, pos.1 as int, pos.2 as int);
    let rx = axis_range(pos.0, ext, off.0, size.0);
    let ry = axis_range(pos.1, ext, off.1, size.1);
    let rz = axis_range(pos.2, ext, off.2, size.2);
    let sx = size.0 as usize;
    let sy = size.1 as usize;
    let n = data.len();
    let mut z: u32 = rz.0;
    while z < rz.1
        invariant
            rz.0 <= z <= rz.1 <= size.2,
            rx.0 <= rx.1 <= size.0,
            ry.0 <= ry.1 <= size.1,
            n == data@.len(),
            offi == (off.0 as int, off.1 as int, off.2 as int),
            posi == (pos.0 as int, pos.1 as int, pos.2 as int),
            sx == size.0,
            sy == size.1,
            grid_matches(data@, size),
            forall|v: int| 0 <= v < size.0 ==> (#[trigger] overlaps(posi.0, ext as int, offi.0, v) <==> rx.0 <= v < rx.1),
            forall|v: int| 0 <= v < size.1 ==> (#[trigger] overlaps(posi.1, ext as int, offi.1, v) <==> ry.0 <= v < ry.1),
            forall|v: int| 0 <= v < size.2 ==> (#[trigger] overlaps(posi.2, ext as int, offi.2, v) <==> rz.0 <= v < rz.1),
            forall|x: int, y: int, w: int|
                rx.0 <= x < rx.1 && ry.0 <= y < ry.1 && rz.0 <= w < z ==> #[trigger] voxel_at(data@, size, x, y, w) == 0,
        decreases rz.1 - z,
    {
        let mut y: u32 = ry.0;
        while y < ry.1
            invariant
                rz.0 <= z < rz.1 <= size.2,
                ry.0 <= y <= ry.1 <= size.1,
                forall|v: int| 0 <= v < size.0 ==> (#[trigger] overlaps(posi.0, ext as int, offi.0, v) <==> rx.0 <= v < rx.1),
                forall|v: int| 0 <= v < size.1 ==> (#[trigger] overlaps(posi.1, ext as int, offi.1, v) <==> ry.0 <= v < ry.1),
                forall|v: int| 0 <= v < size.2 ==> (#[trigger] overlaps(posi.2, ext as int, offi.2, v) <==> rz.0 <= v < rz.1),
                rx.0 <= rx.1 <= size.0,
                n == data@.len(),
                offi == (off.0 as int, off.1 as int, off.2 as int),
                posi == (pos.0 as int, pos.1 as int, pos.2 as int),
                sx == size.0,
                sy == size.1,
                grid_matches(data@, size),
                forall|x: int, yy: int, w: int|
                    rx.0 <= x < rx.1 && ry.0 <= yy < ry.1 && rz.0 <= w < z ==> #[trigger] voxel_at(data@, size, x, yy, w) == 0,
                forall|x: int, yy: int|
                    rx.0 <= x < rx.1 && ry.0 <= yy < y ==> #[trigger] voxel_at(data@, size, x, yy, z as int) == 0,
            decreases ry.1 - y,
        {
            let mut x: u32 = rx.0;
            while x < rx.1
                invariant
                    rz.0 <= z < rz.1 <= size.2,
                    ry.0 <= y < ry.1 <= size.1,
                    rx.0 <= x <= rx.1 <= size.0,
                    forall|v: int| 0 <= v < size.0 ==> (#[trigger] overlaps(posi.0, ext as int, offi.0, v) <==> rx.0 <= v < rx.1),
                    forall|v: int| 0 <= v < size.1 ==> (#[trigger] overlaps(posi.1, ext as int, offi.1, v) <==> ry.0 <= v < ry.1),
                    forall|v: int| 0 <= v < size.2 ==> (#[trigger] overlaps(posi.2, ext as int, offi.2, v) <==> rz.0 <= v < rz.1),
                    n == data@.len(),
                    offi == (off.0 as int, off.1 as int, off.2 as int),
                    posi == (pos.0 as int, pos.1 as int, pos.2 as int),
                offi == (off.0 as int, off.1 as int, off.2 as int),
                posi == (pos.0 as int, pos.1 as int, pos.2 as int),
                    sx == size.0,
                    sy == size.1,
                    grid_matches(data@, size),
                    forall|xx: int, yy: int, w: int|
                        rx.0 <= xx < rx.1 && ry.0 <= yy < ry.1 && rz.0 <= w < z ==> #[trigger] voxel_at(data@, size, xx, yy, w) == 0,
                    forall|xx: int, yy: int|
                        rx.0 <= xx < rx.1 && ry.0 <= yy < y ==> #[trigger] voxel_at(data@, size, xx, yy, z as int) == 0,
                    forall|xx: int| rx.0 <= xx < x ==> #[trigger] voxel_at(data@, size, xx, y as int, z as int) == 0,
                decreases rx.1 - x,
            {
                proof {
                    lemma_index_bounds(size, x as int, y as int, z as int);
                }
                let idx = x as usize + y as usize * sx + z as usize * (sx * sy);
                if data[idx] != 0 {
                    assert(voxel_at(data@, size, x as int, y as int, z as int) != 0);
                    assert(overlaps(posi.0, ext as int, offi.0, x as int));
                    assert(overlaps(posi.1, ext as int, offi.1, y as int));
                    assert(overlaps(posi.2, ext as int, offi.2, z as int));
                    assert(region_occupied(data@, size, offi, posi, ext as int));
                    return true;
                }
                x = x + 1;
            }
            y = y + 1;
        }
        z = z + 1;
    }
    assert(!region_occupied(data@, size, offi, posi, ext as int)) by {
        if region_occupied(data@, size, offi, posi, ext as int) {
            let (x, y, w) = choose|x: int, y: int, z: int|
                0 <= x < size.0 && 0 <= y < size.1 && 0 <= z < size.2
                    && #[trigger] voxel_at(data@, size, x, y, z) != 0
                    && overlaps(posi.0, ext as int, offi.0, x)
                    && overlaps(posi.1, ext as int, offi.1, y)
                    && overlaps(posi.2, ext as int, offi.2, z);
            assert(voxel_at(data@, size, x, y, w) == 0);
        }
    }
    false
}

/// Whether `(x, y, z)` lies inside a grid of dimensions `size`.
pub open spec fn in_grid(size: (u32, u32, u32), x: int, y: int, z: int) -> bool {
    0 <= x < size.0 && 0 <= y < size.1 && 0 <= z < size.2
}

/// Material at flat index `idx` after placing `voxels` (position and material)
/// in order into an empty grid; a later voxel overwrites an earlier one, and
/// voxels outside the grid are dropped.
pub open spec fn placed(voxels: Seq<(u32, u32, u32, u8)>, size: (u32, u32, u32), idx: int) -> u8
    decreases voxels.len(),
{
    if voxels.len() == 0 {
        0
    } else {
        let v = voxels.last();
        if in_grid(size, v.0 as int, v.1 as int, v.2 as int) && voxel_index(size, v.0 as int, v.1 as int, v.2 as int) == idx {
            v.3
        } else {
            placed(voxels.drop_last(), size, idx)
        }
    }
}

/// The flat material array of a grid of dimensions `size` holding `voxels`.
pub fn grid_from_voxels(size: (u32, u32, u32), voxels: &Vec<(u32, u32, u32, u8)>) -> (r: Vec<u8>)
    requires
        size.0 as int * size.1 as int * size.2 as int <= usize::MAX,
    ensures
        grid_matches(r@, size),
        forall|idx: int| 0 <= idx < r@.len() ==> #[trigger] r@[idx] == placed(voxels@, size, idx),
{
    let (sx, sy, sz) = size;
    proof {
        assert(0 <= sx as int * sy as int) by (nonlinear_arith)
            requires 0 <= sx, 0 <= sy;
        assert(sx as int * sy as int <= sx as int * sy as int * sz as int || sz == 0) by (nonlinear_arith)
            requires 0 <= sx, 0 <= sy, 0 <= sz;
        assert(0 <= sx as int * sy as int * sz as int) by (nonlinear_arith)
            requires 0 <= sx, 0 <= sy, 0 <= sz;
        assert(sz == 0 ==> sx as int * sy as int * sz as int == 0) by (nonlinear_arith);
    }
    let total: usize = if sz == 0 { 0 } else { sx as usize * sy as usize * sz as usize };
    assert(total == sx as int * sy as int * sz as int);
    let mut out: Vec<u8> = Vec::new();
    let mut i: usize = 0;
    while i < total
        invariant
            i <= total,
            out@.len() == i,
            forall|idx: int| 0 <= idx < i ==> #[trigger] out@[idx] == 0,
        decreases total - i,
    {
        out.push(0);
        i = i + 1;
    }
    let mut k: usize = 0;
    while k < voxels.len()
        invariant
            k <= voxels@.len(),
            out@.len() == total,
            total == sx as int * sy as int * sz as int,
            size == (sx, sy, sz),
            forall|idx: int| 0 <= idx < total ==> #[trigger] out@[idx] == placed(voxels@.take(k as int), size, idx),
        decreases voxels@.len() - k,
    {
        let (x, y, z, m) = voxels[k];
        let ghost before = out@;
        if x < sx && y < sy && z < sz {
            proof {
                lemma_index_bounds(size, x as int, y as int, z as int);
            }
            let idx = x as usize + y as usize * sx as usize + z as usize * (sx as usize * sy as usize);
            out.set(idx, m);
        }
        proof {
            let vs = voxels@.take(k + 1);
            assert(vs.drop_last() =~= voxels@.take(k as int));
            assert(vs.last() == voxels@[k as int]);
            assert forall|idx: int| 0 <= idx < total implies #[trigger] out@[idx] == placed(vs, size, idx) by {
                assert(before[idx] == placed(voxels@.take(k as int), size, idx));
            }
        }
        k = k + 1;
    }
    assert(voxels@.take(voxels@.len() as int) =~= voxels@);
    out
}

} // verus!
