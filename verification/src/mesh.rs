//! Meshing a chunk: find the visible faces of its voxels, group them by
//! direction, texture, ambient occlusion and layer, merge each group with
//! the greedy mesher and pack every quad into an `Instance`.
use vstd::multiset::Multiset;
use vstd::prelude::*;

use crate::chunk::{
    Chunk, ao_frame, lemma_ao_ok_in_chunk, lemma_ao_packed_bound, lemma_neighbourhood_lookup,
    triple_add, voxel_code, ChunkRefs, Instance, Triple, VoxelType,
};
use crate::collections::{face_layers_contents, FaceLayers, LayerKey};
use crate::greedy::{
    bit_set, greedy_mesh, greedy_quads, grid_set, in_grid, layer_cells, lemma_greedy_tiles_exactly,
    quad_covers, quad_in_grid, tiles_exactly, Quad,
};
use crate::position::{IVec3, UVec3};

verus! {

/// Bit `b` of a 64-bit column is set.
pub open spec fn bit64(v: u64, b: int) -> bool {
    0 <= b < 64 && (v >> (b as u64)) & 1u64 == 1u64
}

/// The occupancy scan visits `(x, y, z)` for `x`, `y`, `z` in `-1 ..= 32`,
/// `x` slowest and `z` fastest; this is the place of `p` in that order.
pub open spec fn scan_index(p: Triple) -> int {
    (p.0 + 1) * 1156 + (p.1 + 1) * 34 + (p.2 + 1)
}

/// `p` lies in the scanned cube `-1 ..= 32` on every axis.
pub open spec fn in_scan(p: Triple) -> bool {
    -1 <= p.0 <= 32 && -1 <= p.1 <= 32 && -1 <= p.2 <= 32
}

/// An occupancy column runs along one axis (0: x, 1: y, 2: z). Column
/// `i * 32 + j` of axis 0 is the line `(_, i, j)`, of axis 1 the line
/// `(j, _, i)`, of axis 2 the line `(i, j, _)`; its bit `b` stands for the
/// voxel at coordinate `b - 1` on the line.
pub open spec fn occ_pos(axis3: int, idx: int, b: int) -> Triple {
    let i = idx / 32;
    let j = idx % 32;
    if axis3 == 0 {
        (b - 1, i, j)
    } else if axis3 == 1 {
        (j, b - 1, i)
    } else {
        (i, j, b - 1)
    }
}

/// For a voxel position: its coordinate along the axis of the columns, and
/// the two coordinates that pick the column.
pub open spec fn split(axis3: int, p: Triple) -> Triple {
    if axis3 == 0 {
        (p.0, p.1, p.2)
    } else if axis3 == 1 {
        (p.1, p.2, p.0)
    } else {
        (p.2, p.0, p.1)
    }
}

/// `cols` holds the occupancy columns along `axis3` of the voxels that the
/// scan has passed before position `limit`.
pub open spec fn occ_ok(refs: ChunkRefs, cols: Seq<u64>, axis3: int, limit: int) -> bool {
    &&& cols.len() == 1024
    &&& forall|idx: int, b: int|
        0 <= idx < 1024 ==> (#[trigger] bit64(cols[idx], b) <==> (0 <= b <= 33 && refs.voxel(
            occ_pos(axis3, idx, b),
        ).solid() && scan_index(occ_pos(axis3, idx, b)) < limit))
}

/// The voxels that close the scan: every position of the cube comes before.
pub open spec fn scan_end() -> int {
    39304
}

proof fn lemma_bit64_or(v: u64, s: u64, b: u64)
    by (bit_vector)
    requires
        s < 64,
        b < 64,
    ensures
        ((v | (1u64 << s)) >> b) & 1u64 == 1u64 <==> ((v >> b) & 1u64 == 1u64 || b == s),
{
}

proof fn lemma_scan_index_injective(p: Triple, q: Triple)
    requires
        in_scan(p),
        in_scan(q),
        scan_index(p) == scan_index(q),
    ensures
        p == q,
{
    assert(p.0 == q.0) by (nonlinear_arith)
        requires
            in_scan(p),
            in_scan(q),
            scan_index(p) == scan_index(q),
    ;
}

proof fn lemma_occ_pos_split(axis3: int, p: Triple)
    requires
        0 <= axis3 < 3,
        0 <= split(axis3, p).1 < 32,
        0 <= split(axis3, p).2 < 32,
    ensures
        occ_pos(axis3, split(axis3, p).1 * 32 + split(axis3, p).2, split(axis3, p).0 + 1) == p,
{
    let s = split(axis3, p);
    let idx = s.1 * 32 + s.2;
    assert(idx / 32 == s.1 && idx % 32 == s.2) by (nonlinear_arith)
        requires
            idx == s.1 * 32 + s.2,
            0 <= s.1 < 32,
            0 <= s.2 < 32,
    ;
}

proof fn lemma_occ_pos_in_scan(axis3: int, idx: int, b: int)
    requires
        0 <= axis3 < 3,
        0 <= idx < 1024,
        0 <= b <= 33,
    ensures
        in_scan(occ_pos(axis3, idx, b)),
        0 <= split(axis3, occ_pos(axis3, idx, b)).1 < 32,
        0 <= split(axis3, occ_pos(axis3, idx, b)).2 < 32,
        split(axis3, occ_pos(axis3, idx, b)).1 * 32 + split(axis3, occ_pos(axis3, idx, b)).2 == idx,
        split(axis3, occ_pos(axis3, idx, b)).0 + 1 == b,
{
    assert(0 <= idx / 32 < 32 && 0 <= idx % 32 < 32 && (idx / 32) * 32 + idx % 32 == idx)
        by (nonlinear_arith)
        requires
            0 <= idx < 1024,
    ;
}

/// One step of the occupancy scan for the columns along `axis3`: the voxel
/// at `p` is added to its column when it is solid.
proof fn lemma_occ_step(refs: ChunkRefs, before: Seq<u64>, after: Seq<u64>, axis3: int, p: Triple)
    requires
        0 <= axis3 < 3,
        in_scan(p),
        occ_ok(refs, before, axis3, scan_index(p)),
        ({
            let s = split(axis3, p);
            let idx = s.1 * 32 + s.2;
            if refs.voxel(p).solid() && 0 <= s.1 < 32 && 0 <= s.2 < 32 {
                after == before.update(idx, before[idx] | (1u64 << ((s.0 + 1) as u64)))
            } else {
                after == before
            }
        }),
    ensures
        occ_ok(refs, after, axis3, scan_index(p) + 1),
{
    let s = split(axis3, p);
    let target = s.1 * 32 + s.2;
    let hit = refs.voxel(p).solid() && 0 <= s.1 < 32 && 0 <= s.2 < 32;
    assert forall|idx: int, b: int| 0 <= idx < 1024 implies (#[trigger] bit64(after[idx], b) <==> (0
        <= b <= 33 && refs.voxel(occ_pos(axis3, idx, b)).solid() && scan_index(
        occ_pos(axis3, idx, b),
    ) < scan_index(p) + 1)) by {
        let q = occ_pos(axis3, idx, b);
        if 0 <= b <= 33 {
            lemma_occ_pos_in_scan(axis3, idx, b);
            if scan_index(q) == scan_index(p) {
                lemma_scan_index_injective(p, q);
            }
        }
        assert(bit64(before[idx], b) <==> (0 <= b <= 33 && refs.voxel(q).solid() && scan_index(q)
            < scan_index(p)));
        if hit && idx == target {
            lemma_occ_pos_split(axis3, p);
            if 0 <= b < 64 {
                lemma_bit64_or(before[idx], (s.0 + 1) as u64, b as u64);
            }
        } else if 0 <= b <= 33 && q == p {
            lemma_occ_pos_in_scan(axis3, idx, b);
        }
    }
}


proof fn lemma_occ_empty(refs: ChunkRefs, cols: Seq<u64>, axis3: int)
    requires
        0 <= axis3 < 3,
        cols.len() == 1024,
        forall|i: int| 0 <= i < 1024 ==> cols[i] == 0u64,
    ensures
        occ_ok(refs, cols, axis3, 0),
{
    assert forall|idx: int, b: int| 0 <= idx < 1024 implies (#[trigger] bit64(cols[idx], b) <==> (0
        <= b <= 33 && refs.voxel(occ_pos(axis3, idx, b)).solid() && scan_index(
        occ_pos(axis3, idx, b),
    ) < 0)) by {
        if 0 <= b < 64 {
            let bb = b as u64;
            assert((0u64 >> bb) & 1u64 == 0u64) by (bit_vector);
        }
        if 0 <= b <= 33 {
            lemma_occ_pos_in_scan(axis3, idx, b);
        }
    }
}

/// The occupancy columns of the 34x34x34 cube around the centre chunk
/// (coordinates `-1 ..= 32`), along x, y and z.
fn occupancy(chunk_refs: &ChunkRefs) -> (r: ([u64; 1024], [u64; 1024], [u64; 1024]))
    ensures
        occ_ok(*chunk_refs, r.0@, 0, scan_end()),
        occ_ok(*chunk_refs, r.1@, 1, scan_end()),
        occ_ok(*chunk_refs, r.2@, 2, scan_end()),
{
    let mut occupied_x = [0u64; 1024];
    let mut occupied_y = [0u64; 1024];
    let mut occupied_z = [0u64; 1024];
    proof {
        lemma_occ_empty(*chunk_refs, occupied_x@, 0);
        lemma_occ_empty(*chunk_refs, occupied_y@, 1);
        lemma_occ_empty(*chunk_refs, occupied_z@, 2);
    }
    let mut x: i32 = -1;
    while x < 33
        invariant
            -1 <= x <= 33,
            occ_ok(*chunk_refs, occupied_x@, 0, scan_index((x as int, -1, -1))),
            occ_ok(*chunk_refs, occupied_y@, 1, scan_index((x as int, -1, -1))),
            occ_ok(*chunk_refs, occupied_z@, 2, scan_index((x as int, -1, -1))),
        decreases 33 - x,
    {
        let mut y: i32 = -1;
        while y < 33
            invariant
                -1 <= x < 33,
                -1 <= y <= 33,
                occ_ok(*chunk_refs, occupied_x@, 0, scan_index((x as int, y as int, -1))),
                occ_ok(*chunk_refs, occupied_y@, 1, scan_index((x as int, y as int, -1))),
                occ_ok(*chunk_refs, occupied_z@, 2, scan_index((x as int, y as int, -1))),
            decreases 33 - y,
        {
            let mut z: i32 = -1;
            while z < 33
                invariant
                    -1 <= x < 33,
                    -1 <= y < 33,
                    -1 <= z <= 33,
                    occ_ok(*chunk_refs, occupied_x@, 0, scan_index((x as int, y as int, z as int))),
                    occ_ok(*chunk_refs, occupied_y@, 1, scan_index((x as int, y as int, z as int))),
                    occ_ok(*chunk_refs, occupied_z@, 2, scan_index((x as int, y as int, z as int))),
                decreases 33 - z,
            {
                let ghost p: Triple = (x as int, y as int, z as int);
                let ghost bx = occupied_x@;
                let ghost by_ = occupied_y@;
                let ghost bz = occupied_z@;
                proof {
                    lemma_neighbourhood_lookup(x as int, y as int, z as int);
                }
                if chunk_refs.get(IVec3::new(x, y, z)).is_solid() {
                    if 0 <= y && y < 32 && 0 <= z && z < 32 {
                        let idx = (y * 32 + z) as usize;
                        occupied_x[idx] = occupied_x[idx] | (1u64 << ((x + 1) as u64));
                    }
                    if 0 <= z && z < 32 && 0 <= x && x < 32 {
                        let idx = (z * 32 + x) as usize;
                        occupied_y[idx] = occupied_y[idx] | (1u64 << ((y + 1) as u64));
                    }
                    if 0 <= x && x < 32 && 0 <= y && y < 32 {
                        let idx = (x * 32 + y) as usize;
                        occupied_z[idx] = occupied_z[idx] | (1u64 << ((z + 1) as u64));
                    }
                }
                proof {
                    lemma_occ_step(*chunk_refs, bx, occupied_x@, 0, p);
                    lemma_occ_step(*chunk_refs, by_, occupied_y@, 1, p);
                    lemma_occ_step(*chunk_refs, bz, occupied_z@, 2, p);
                }
                z += 1;
            }
            y += 1;
        }
        x += 1;
    }
    (occupied_x, occupied_y, occupied_z)
}


// ---------------------------------------------------------------------------
// Visible faces.
// ---------------------------------------------------------------------------

/// The voxel of face `(i, j)` of layer `k` for a direction: layers run along
/// the direction's axis; in x they are `(k, i, j)`, in y `(j, k, i)`, in z
/// `(i, j, k)`.
pub open spec fn face_position(axis: int, k: int, i: int, j: int) -> Triple {
    if axis == 0 || axis == 1 {
        (k, i, j)
    } else if axis == 2 || axis == 3 {
        (j, k, i)
    } else {
        (i, j, k)
    }
}

/// The face of the voxel at `p` towards direction `axis` (0: +x, 1: -x,
/// 2: +y, 3: -y, 4: +z, 5: -z) is visible: the voxel is solid and its
/// neighbour in that direction is not.
pub open spec fn face_visible(refs: ChunkRefs, axis: int, p: Triple) -> bool {
    refs.voxel(p).solid() && !refs.voxel(triple_add(p, ao_frame(axis).0)).solid()
}

/// The culled columns of one axis: `culled[n]` marks the voxels of column `n`
/// whose face towards the positive direction is visible, `culled[1024 + n]`
/// those whose face towards the negative direction is.
pub open spec fn culled_ok(cols: Seq<u64>, culled: Seq<u64>) -> bool {
    &&& culled.len() == 2048
    &&& cull_done(cols, culled, 1024)
}

/// Bit `k + 1` of the culled column `n` of direction `axis` marks the
/// visible face of layer `k` at `(n / 32, n % 32)`.
pub open spec fn faces_ok(refs: ChunkRefs, culled: Seq<u64>, axis: int) -> bool {
    &&& culled.len() == 2048
    &&& forall|n: int, k: int|
        0 <= n < 1024 && 0 <= k < 32 ==> (#[trigger] bit64(culled[(axis % 2) * 1024 + n], k + 1)
            <==> face_visible(refs, axis, face_position(axis, k, n / 32, n % 32)))
}

proof fn lemma_cull_bits(v: u64, b: u64)
    by (bit_vector)
    requires
        1 <= b < 63,
    ensures
        (((v & !(v >> 1u64)) >> b) & 1u64 == 1u64) <==> ((v >> b) & 1u64 == 1u64 && (v >> (b
            + 1) as u64) & 1u64 != 1u64),
        (((v & !(v << 1u64)) >> b) & 1u64 == 1u64) <==> ((v >> b) & 1u64 == 1u64 && (v >> (b
            - 1) as u64) & 1u64 != 1u64),
{
}

/// The culled columns mark exactly the visible faces.
proof fn lemma_culled_faces(refs: ChunkRefs, cols: Seq<u64>, culled: Seq<u64>, axis: int)
    requires
        0 <= axis < 6,
        occ_ok(refs, cols, axis / 2, scan_end()),
        culled_ok(cols, culled),
    ensures
        faces_ok(refs, culled, axis),
{
    let axis3 = axis / 2;
    assert forall|n: int, k: int| 0 <= n < 1024 && 0 <= k < 32 implies (#[trigger] bit64(
        culled[(axis % 2) * 1024 + n],
        k + 1,
    ) <==> face_visible(refs, axis, face_position(axis, k, n / 32, n % 32))) by {
        let col = cols[n];
        assert(culled[n] == cols[n] & !(cols[n] >> 1u64));
        assert(culled[1024 + n] == cols[n] & !(cols[n] << 1u64));
        lemma_cull_bits(col, (k + 1) as u64);
        assert(bit64(col, k + 1) <==> (refs.voxel(occ_pos(axis3, n, k + 1)).solid() && scan_index(
            occ_pos(axis3, n, k + 1),
        ) < scan_end()));
        assert(bit64(col, k + 2) <==> (refs.voxel(occ_pos(axis3, n, k + 2)).solid() && scan_index(
            occ_pos(axis3, n, k + 2),
        ) < scan_end()));
        assert(bit64(col, k) <==> (refs.voxel(occ_pos(axis3, n, k)).solid() && scan_index(
            occ_pos(axis3, n, k),
        ) < scan_end()));
        lemma_occ_pos_in_scan(axis3, n, k);
        lemma_occ_pos_in_scan(axis3, n, k + 1);
        lemma_occ_pos_in_scan(axis3, n, k + 2);
        assert(occ_pos(axis3, n, k + 1) == face_position(axis, k, n / 32, n % 32));
    }
}

/// The first `done` culled columns are computed.
pub open spec fn cull_done(cols: Seq<u64>, culled: Seq<u64>, done: int) -> bool {
    &&& cols.len() == 1024
    &&& culled.len() == 2048
    &&& forall|n: int|
        0 <= n < done ==> #[trigger] culled[n] == cols[n] & !(cols[n] >> 1u64)
    &&& forall|n: int|
        0 <= n < done ==> #[trigger] culled[1024 + n] == cols[n] & !(cols[n] << 1u64)
}

/// Culling: a face is visible where a solid voxel's neighbour is not solid.
fn cull_columns(occupied_x: &[u64; 1024], occupied_y: &[u64; 1024], occupied_z: &[u64; 1024]) -> (r: (
    [u64; 2048],
    [u64; 2048],
    [u64; 2048],
))
    ensures
        culled_ok(occupied_x@, r.0@),
        culled_ok(occupied_y@, r.1@),
        culled_ok(occupied_z@, r.2@),
{
    let mut culled_mask_x = [0u64; 2048];
    let mut culled_mask_y = [0u64; 2048];
    let mut culled_mask_z = [0u64; 2048];
    let mut i: usize = 0;
    while i < 32
        invariant
            i <= 32,
            cull_done(occupied_x@, culled_mask_x@, i * 32),
            cull_done(occupied_y@, culled_mask_y@, i * 32),
            cull_done(occupied_z@, culled_mask_z@, i * 32),
        decreases 32 - i,
    {
        let mut j: usize = 0;
        while j < 32
            invariant
                i < 32,
                j <= 32,
                cull_done(occupied_x@, culled_mask_x@, i * 32 + j),
                cull_done(occupied_y@, culled_mask_y@, i * 32 + j),
                cull_done(occupied_z@, culled_mask_z@, i * 32 + j),
            decreases 32 - j,
        {
            let n = i * 32 + j;
            let column_x = occupied_x[n];
            culled_mask_x[n] = column_x & !(column_x >> 1);
            culled_mask_x[1024 + n] = column_x & !(column_x << 1);
            let column_y = occupied_y[n];
            culled_mask_y[n] = column_y & !(column_y >> 1);
            culled_mask_y[1024 + n] = column_y & !(column_y << 1);
            let column_z = occupied_z[n];
            culled_mask_z[n] = column_z & !(column_z >> 1);
            culled_mask_z[1024 + n] = column_z & !(column_z << 1);
            j += 1;
        }
        i += 1;
    }
    (culled_mask_x, culled_mask_y, culled_mask_z)
}


// ---------------------------------------------------------------------------
// Grouping the faces.
// ---------------------------------------------------------------------------

/// The texture of a solid voxel: its stored number minus one.
pub open spec fn face_texture(refs: ChunkRefs, p: Triple) -> int {
    voxel_code(refs.voxel(p)) - 1
}

/// The ambient occlusion of the face of the voxel at `p` towards `axis`.
pub open spec fn face_ao(refs: ChunkRefs, axis: int, p: Triple) -> u32 {
    refs.ao_packed(UVec3 { x: p.0 as u32, y: p.1 as u32, z: p.2 as u32 }, axis)
}

/// Cell `c` (`i * 32 + j`) of layer `key.2` holds a visible face towards
/// `axis` whose texture is `key.0` and whose ambient occlusion is `key.1`.
pub open spec fn in_group(refs: ChunkRefs, axis: int, key: LayerKey, c: int) -> bool {
    &&& in_grid(c)
    &&& face_visible(refs, axis, face_position(axis, key.2 as int, c / 32, c % 32))
    &&& face_texture(refs, face_position(axis, key.2 as int, c / 32, c % 32)) == key.0
    &&& face_ao(refs, axis, face_position(axis, key.2 as int, c / 32, c % 32)) == key.1
}

/// The faces of a group, as cells of its layer; only layers inside the
/// chunk count.
pub open spec fn group_cells(refs: ChunkRefs, axis: int, key: LayerKey) -> Set<int> {
    Set::new(|c: int| key.2 < 32 && in_group(refs, axis, key, c))
}

/// A layer with no faces.
pub open spec fn zero_layer() -> Seq<u32> {
    Seq::new(32, |i: int| 0u32)
}

/// The layer stored under `key`, or an empty layer.
pub open spec fn layer_of(m: Map<LayerKey, Seq<u32>>, key: LayerKey) -> Seq<u32> {
    if m.contains_key(key) {
        m[key]
    } else {
        zero_layer()
    }
}

/// A key of a group that can hold faces: three textures, 8 bits of
/// occlusion, 32 layers.
pub open spec fn key_in_range(key: LayerKey) -> bool {
    key.0 < 3 && key.1 < 256 && key.2 < 32
}

/// The face of cell `c` in layer `k` has been grouped when the scan stands
/// at cell `cur` with the faces `col` of that cell still to go.
pub open spec fn grouped_before(k: int, c: int, cur: int, col: u32) -> bool {
    k < 32 && (c < cur || (c == cur && !bit_set(col, k)))
}

/// The map holds, for every group, exactly the faces grouped so far.
pub open spec fn groups_ok(
    refs: ChunkRefs,
    axis: int,
    m: Map<LayerKey, Seq<u32>>,
    cur: int,
    col: u32,
) -> bool {
    &&& forall|key: LayerKey|
        #[trigger] m.contains_key(key) ==> m[key].len() == 32 && key_in_range(key)
    &&& forall|key: LayerKey, c: int|
        in_grid(c) ==> (bit_set(#[trigger] layer_of(m, key)[c / 32], c % 32) <==> (in_group(
            refs,
            axis,
            key,
            c,
        ) && grouped_before(key.2 as int, c, cur, col)))
}

proof fn lemma_set_bit(v: u32, j: u32, b: u32)
    by (bit_vector)
    requires
        j < 32,
        b < 32,
    ensures
        ((v | (1u32 << j)) >> b) & 1u32 == 1u32 <==> ((v >> b) & 1u32 == 1u32 || b == j),
{
}

proof fn lemma_clear_lowest(c: u32, t: u32, b: u32)
    by (bit_vector)
    requires
        c != 0,
        t < 32,
        b < 32,
        (c >> t) & 1u32 == 1u32,
        c << ((32 - t) as u32) == 0,
    ensures
        ((c & ((c - 1) as u32)) >> b) & 1u32 == 1u32 <==> ((c >> b) & 1u32 == 1u32 && b != t),
        c & ((c - 1) as u32) < c,
{
}

proof fn lemma_face_column(c: u64, k: u32)
    by (bit_vector)
    requires
        k < 32,
    ensures
        (((c >> 1u64) as u32 >> k) & 1u32 == 1u32) <==> ((c >> (k + 1) as u64) & 1u64 == 1u64),
{
}

/// The start of the scan of cell `n`: none of its faces is grouped yet.
pub open spec fn all_pending() -> u32 {
    0xffff_ffffu32
}

proof fn lemma_all_bits(b: u32)
    by (bit_vector)
    requires
        b < 32,
    ensures
        (0xffff_ffffu32 >> b) & 1u32 == 1u32,
        (0u32 >> b) & 1u32 != 1u32,
{
}

/// Moving from one cell to the next: a cell whose faces are all grouped is
/// the same as a cell before the next one.
proof fn lemma_next_cell(refs: ChunkRefs, axis: int, m: Map<LayerKey, Seq<u32>>, n: int)
    requires
        groups_ok(refs, axis, m, n, 0),
    ensures
        groups_ok(refs, axis, m, n + 1, all_pending()),
{
    assert forall|key: LayerKey, c: int| in_grid(c) implies (bit_set(
        #[trigger] layer_of(m, key)[c / 32],
        c % 32,
    ) <==> (in_group(refs, axis, key, c) && grouped_before(key.2 as int, c, n + 1, all_pending())))
        by {
        if key.2 < 32 {
            lemma_all_bits(key.2);
        }
    }
}

/// Starting the scan of cell `n`: its pending faces are the visible ones.
proof fn lemma_start_cell(refs: ChunkRefs, axis: int, m: Map<LayerKey, Seq<u32>>, n: int, col: u32)
    requires
        0 <= n < 1024,
        groups_ok(refs, axis, m, n, all_pending()),
        forall|k: int|
            0 <= k < 32 ==> (bit_set(col, k) <==> face_visible(
                refs,
                axis,
                face_position(axis, k, n / 32, n % 32),
            )),
    ensures
        groups_ok(refs, axis, m, n, col),
{
    assert forall|key: LayerKey, c: int| in_grid(c) implies (bit_set(
        #[trigger] layer_of(m, key)[c / 32],
        c % 32,
    ) <==> (in_group(refs, axis, key, c) && grouped_before(key.2 as int, c, n, col))) by {
        if key.2 < 32 {
            lemma_all_bits(key.2);
            if c == n && in_group(refs, axis, key, c) {
                assert(bit_set(col, key.2 as int));
            }
        }
    }
}

/// Grouping one face: the face of layer `key.2` at cell `n` joins the layer
/// of its group.
proof fn lemma_group_step(
    refs: ChunkRefs,
    axis: int,
    m0: Map<LayerKey, Seq<u32>>,
    m1: Map<LayerKey, Seq<u32>>,
    key: LayerKey,
    i: u32,
    j: u32,
    col_before: u32,
    col_after: u32,
    layer1: Seq<u32>,
)
    requires
        i < 32,
        j < 32,
        groups_ok(refs, axis, m0, i * 32 + j, col_before),
        bit_set(col_before, key.2 as int),
        forall|b: int| 0 <= b < 32 ==> (bit_set(col_after, b) <==> (bit_set(col_before, b) && b != key.2)),
        in_group(refs, axis, key, i * 32 + j),
        key_in_range(key),
        layer1 == layer_of(m0, key).update(i as int, layer_of(m0, key)[i as int] | (1u32 << j)),
        m1 == m0.insert(key, layer1),
    ensures
        groups_ok(refs, axis, m1, i * 32 + j, col_after),
{
    let n = i * 32 + j;
    let layer0 = layer_of(m0, key);
    assert(layer0.len() == 32);
    assert forall|key2: LayerKey| #[trigger] m1.contains_key(key2) implies m1[key2].len() == 32
        && key_in_range(key2) by {
        if key2 != key {
            assert(m0.contains_key(key2));
        }
    }
    assert forall|key2: LayerKey, c: int| in_grid(c) implies (bit_set(
        #[trigger] layer_of(m1, key2)[c / 32],
        c % 32,
    ) <==> (in_group(refs, axis, key2, c) && grouped_before(key2.2 as int, c, n, col_after))) by {
        assert(bit_set(layer_of(m0, key2)[c / 32], c % 32) <==> (in_group(refs, axis, key2, c)
            && grouped_before(key2.2 as int, c, n, col_before)));
        if key2 == key {
            assert(layer_of(m1, key2) == layer1);
            if c / 32 == i {
                lemma_set_bit(layer0[c / 32], j, (c % 32) as u32);
                if c % 32 == j {
                    assert(c == n);
                }
            }
        } else {
            assert(layer_of(m1, key2) == layer_of(m0, key2));
            if c == n && key2.2 == key.2 {
                assert(!in_group(refs, axis, key2, c));
            }
        }
    }
}

/// The faces of one direction, grouped by texture, ambient occlusion and
/// layer: bit `j` of row `i` of the layer of a group marks its face at
/// `face_position(axis, layer, i, j)`.
#[verifier::spinoff_prover]
#[verifier::rlimit(60)]
fn group_faces(chunk_refs: &ChunkRefs, culled: &[u64; 2048], axis: usize) -> (r: FaceLayers)
    requires
        axis < 6,
        faces_ok(*chunk_refs, culled@, axis as int),
    ensures
        groups_ok(*chunk_refs, axis as int, face_layers_contents(r), 1024, all_pending()),
{
    let mut data = FaceLayers::new();
    proof {
        let m = face_layers_contents(data);
        assert forall|key: LayerKey, c: int| in_grid(c) implies (bit_set(
            #[trigger] layer_of(m, key)[c / 32],
            c % 32,
        ) <==> (in_group(*chunk_refs, axis as int, key, c) && grouped_before(
            key.2 as int,
            c,
            0,
            all_pending(),
        ))) by {
            lemma_all_bits((c % 32) as u32);
            if key.2 < 32 {
                lemma_all_bits(key.2);
            }
        }
    }
    let mut i: u32 = 0;
    while i < 32
        invariant
            axis < 6,
            faces_ok(*chunk_refs, culled@, axis as int),
            i <= 32,
            groups_ok(*chunk_refs, axis as int, face_layers_contents(data), i * 32, all_pending()),
        decreases 32 - i,
    {
        let mut j: u32 = 0;
        while j < 32
            invariant
                axis < 6,
                faces_ok(*chunk_refs, culled@, axis as int),
                i < 32,
                j <= 32,
                groups_ok(
                    *chunk_refs,
                    axis as int,
                    face_layers_contents(data),
                    i * 32 + j,
                    all_pending(),
                ),
            decreases 32 - j,
        {
            let n = (i * 32 + j) as usize;
            let column = culled[(axis % 2) * 1024 + n];
            let mut column = (column >> 1) as u32;
            proof {
                assert(n as int / 32 == i && n as int % 32 == j);
                assert forall|k: int| 0 <= k < 32 implies (bit_set(column, k) <==> face_visible(
                    *chunk_refs,
                    axis as int,
                    face_position(axis as int, k, n as int / 32, n as int % 32),
                )) by {
                    let c = culled@[(axis as int % 2) * 1024 + n as int];
                    lemma_face_column(c, k as u32);
                    assert(bit64(c, k + 1) <==> face_visible(
                        *chunk_refs,
                        axis as int,
                        face_position(axis as int, k, n as int / 32, n as int % 32),
                    ));
                }
                lemma_start_cell(*chunk_refs, axis as int, face_layers_contents(data), n as int, column);
            }
            while column != 0
                invariant
                    axis < 6,
                    i < 32,
                    j < 32,
                    n == i * 32 + j,
                    forall|k: int|
                        0 <= k < 32 && bit_set(column, k) ==> face_visible(
                            *chunk_refs,
                            axis as int,
                            face_position(axis as int, k, i as int, j as int),
                        ),
                    groups_ok(*chunk_refs, axis as int, face_layers_contents(data), n as int, column),
                decreases column,
            {
                let k = column.trailing_zeros();
                let ghost before = column;
                proof {
                    vstd::std_specs::bits::axiom_u32_trailing_zeros(column);
                    lemma_clear_lowest(column, k, 0);
                }
                column &= column - 1;
                proof {
                    assert forall|b: int| 0 <= b < 32 implies (bit_set(column, b) <==> (bit_set(
                        before,
                        b,
                    ) && b != k)) by {
                        lemma_clear_lowest(before, k, b as u32);
                    }
                }
                let position = match axis {
                    0 | 1 => UVec3::new(k, i, j),
                    2 | 3 => UVec3::new(j, k, i),
                    _ => UVec3::new(i, j, k),
                };
                let ghost p: Triple = (position.x as int, position.y as int, position.z as int);
                proof {
                    assert(p == face_position(axis as int, k as int, i as int, j as int));
                    assert(bit_set(before, k as int));
                    lemma_neighbourhood_lookup(p.0, p.1, p.2);
                    lemma_ao_ok_in_chunk(position, axis as int);
                }
                let current_voxel = chunk_refs.get_only_self(position);
                assert(current_voxel == chunk_refs.voxel(p));
                let texture_id = current_voxel.code() - 1;
                let ao = chunk_refs.calculate_ao(position, axis);
                let key = (texture_id, ao, k);
                let ghost m0 = face_layers_contents(data);
                let mut layer_data = match data.get(key) {
                    Some(layer) => layer,
                    None => [0u32; 32],
                };
                assert(layer_data@ == layer_of(m0, key));
                layer_data[i as usize] = layer_data[i as usize] | (1u32 << j);
                data.insert(key, layer_data);
                proof {
                    assert(p == face_position(axis as int, key.2 as int, n as int / 32, n as int % 32));
                    assert(in_group(*chunk_refs, axis as int, key, n as int));
                    lemma_group_step(
                        *chunk_refs,
                        axis as int,
                        m0,
                        face_layers_contents(data),
                        key,
                        i,
                        j,
                        before,
                        column,
                        layer_data@,
                    );
                }
            }
            proof {
                lemma_next_cell(*chunk_refs, axis as int, face_layers_contents(data), n as int);
            }
            j += 1;
        }
        i += 1;
    }
    data
}


// ---------------------------------------------------------------------------
// Packing the quads.
// ---------------------------------------------------------------------------

/// The six face directions.
enum FaceDirection {
    PosX,
    NegX,
    PosY,
    NegY,
    PosZ,
    NegZ,
}

/// The instance of quad `q` of the group `key` of direction `axis`: the
/// voxel where the quad starts in bits 0..15 (5 bits per coordinate),
/// width - 1 in bits 15..20, height - 1 in bits 20..25, the ambient
/// occlusion from bit 25 and the texture from bit 33.
pub open spec fn encode_instance(axis: int, key: LayerKey, q: Quad) -> u64 {
    let pos = face_position(axis, key.2 as int, q.x as int, q.y as int);
    ((((((0u64 | (pos.0 as u64)) | ((pos.1 as u64) << 5u64)) | ((pos.2 as u64) << 10u64)) | (((q.w
        - 1) as u64) << 15u64)) | (((q.h - 1) as u64) << 20u64)) | ((key.1 as u64) << 25u64)) | ((
    key.0 as u64) << 33u64)
}

proof fn lemma_unpack(a: u64, b: u64, c: u64, w: u64, h: u64, ao: u64, t: u64)
    by (bit_vector)
    requires
        a < 32,
        b < 32,
        c < 32,
        w < 32,
        h < 32,
        ao < 256,
        t < 0x8000_0000,
    ensures
        ({
            let v = ((((((0u64 | a) | (b << 5u64)) | (c << 10u64)) | (w << 15u64)) | (h << 20u64)) | (
            ao << 25u64)) | (t << 33u64);
            &&& v & 31 == a
            &&& (v >> 5u64) & 31 == b
            &&& (v >> 10u64) & 31 == c
            &&& (v >> 15u64) & 31 == w
            &&& (v >> 20u64) & 31 == h
            &&& (v >> 25u64) & 255 == ao
            &&& v >> 33u64 == t
        }),
{
}

/// Unpacking an instance gives back what was packed: the voxel where the
/// quad starts (5 bits per coordinate), width - 1 and height - 1 (5 bits
/// each), the ambient occlusion (8 bits) and the texture (the top 31 bits).
pub proof fn lemma_instance_fields(axis: int, key: LayerKey, q: Quad)
    requires
        quad_in_grid(q),
        key.0 < 0x8000_0000,
        key.1 < 256,
        key.2 < 32,
    ensures
        ({
            let v = encode_instance(axis, key, q);
            let pos = face_position(axis, key.2 as int, q.x as int, q.y as int);
            &&& v & 31 == pos.0
            &&& (v >> 5u64) & 31 == pos.1
            &&& (v >> 10u64) & 31 == pos.2
            &&& (v >> 15u64) & 31 == q.w - 1
            &&& (v >> 20u64) & 31 == q.h - 1
            &&& (v >> 25u64) & 255 == key.1
            &&& v >> 33u64 == key.0
        }),
{
    let pos = face_position(axis, key.2 as int, q.x as int, q.y as int);
    lemma_unpack(
        pos.0 as u64,
        pos.1 as u64,
        pos.2 as u64,
        (q.w - 1) as u64,
        (q.h - 1) as u64,
        key.1 as u64,
        key.0 as u64,
    );
}

/// The instances of one group: its faces merged by the greedy mesher.
pub open spec fn group_instances(refs: ChunkRefs, axis: int, key: LayerKey) -> Seq<u64> {
    greedy_quads(group_cells(refs, axis, key)).map_values(|q: Quad| encode_instance(axis, key, q))
}

/// The group keys in a fixed order: texture, then occlusion, then layer.
pub open spec fn key_at(n: int) -> LayerKey {
    ((n / 8192) as u32, ((n % 8192) / 32) as u32, (n % 32) as u32)
}

/// The place of a key in that order.
pub open spec fn key_index(key: LayerKey) -> int {
    key.0 * 8192 + key.1 * 32 + key.2
}

/// The number of group keys in range.
pub open spec fn key_count() -> int {
    24576
}

/// The instances of the first `n` groups in key order.
pub open spec fn faces_upto(refs: ChunkRefs, axis: int, n: int) -> Seq<u64>
    decreases n,
{
    if n <= 0 {
        Seq::empty()
    } else {
        faces_upto(refs, axis, n - 1) + group_instances(refs, axis, key_at(n - 1))
    }
}

/// The instances of the mesh of direction `axis`, listed group by group in
/// key order.
pub open spec fn mesh_faces(refs: ChunkRefs, axis: int) -> Seq<u64> {
    faces_upto(refs, axis, key_count())
}

/// The instances of the groups `keys`, in that order.
pub open spec fn listed_faces(refs: ChunkRefs, axis: int, keys: Seq<LayerKey>) -> Seq<u64>
    decreases keys.len(),
{
    if keys.len() == 0 {
        Seq::empty()
    } else {
        listed_faces(refs, axis, keys.drop_last()) + group_instances(refs, axis, keys.last())
    }
}

/// The instances of the first `n` groups in key order that `keys` lists.
pub open spec fn picked_faces(refs: ChunkRefs, axis: int, keys: Seq<LayerKey>, n: int) -> Multiset<
    u64,
>
    decreases n,
{
    if n <= 0 {
        Multiset::empty()
    } else {
        picked_faces(refs, axis, keys, n - 1).add(
            if keys.contains(key_at(n - 1)) {
                group_instances(refs, axis, key_at(n - 1)).to_multiset()
            } else {
                Multiset::empty()
            },
        )
    }
}

proof fn lemma_key_order(key: LayerKey, n: int)
    requires
        key_in_range(key),
        0 <= n < key_count(),
    ensures
        0 <= key_index(key) < key_count(),
        key_at(key_index(key)) == key,
        key_in_range(key_at(n)),
        key_at(n) == key ==> n == key_index(key),
{
    let i = key_index(key);
    assert(0 <= i < 24576 && i / 8192 == key.0 && (i % 8192) / 32 == key.1 && i % 32 == key.2)
        by (nonlinear_arith)
        requires
            i == key.0 * 8192 + key.1 * 32 + key.2,
            key.0 < 3,
            key.1 < 256,
            key.2 < 32,
    ;
    assert(n / 8192 < 3 && (n % 8192) / 32 < 256 && n % 32 < 32 && n == (n / 8192) * 8192 + ((n
        % 8192) / 32) * 32 + n % 32) by (nonlinear_arith)
        requires
            0 <= n < 24576,
    ;
}

/// Adding one more listed key adds its group once, at its place in key order.
proof fn lemma_picked_push(refs: ChunkRefs, axis: int, keys: Seq<LayerKey>, s: LayerKey, n: int)
    requires
        key_in_range(s),
        !keys.contains(s),
        0 <= n <= key_count(),
    ensures
        picked_faces(refs, axis, keys.push(s), n) == picked_faces(refs, axis, keys, n).add(
            if key_index(s) < n {
                group_instances(refs, axis, s).to_multiset()
            } else {
                Multiset::empty()
            },
        ),
    decreases n,
{
    broadcast use vstd::multiset::group_multiset_axioms;

    if n > 0 {
        lemma_picked_push(refs, axis, keys, s, n - 1);
        let k = key_at(n - 1);
        lemma_key_order(s, n - 1);
        assert(keys.push(s).contains(k) <==> (keys.contains(k) || k == s)) by {
            if keys.push(s).contains(k) {
                let w = choose|w: int| 0 <= w < keys.push(s).len() && keys.push(s)[w] == k;
                if w < keys.len() {
                    assert(keys[w] == k);
                }
            }
            if keys.contains(k) {
                let w = choose|w: int| 0 <= w < keys.len() && keys[w] == k;
                assert(keys.push(s)[w] == k);
            }
            if k == s {
                assert(keys.push(s)[keys.len() as int] == k);
            }
        }
        assert(picked_faces(refs, axis, keys.push(s), n) =~= picked_faces(refs, axis, keys, n).add(
            if key_index(s) < n {
                group_instances(refs, axis, s).to_multiset()
            } else {
                Multiset::empty()
            },
        ));
    }
}

/// Listing distinct keys gives the groups that they pick out.
proof fn lemma_listed_picked(refs: ChunkRefs, axis: int, keys: Seq<LayerKey>)
    requires
        forall|i: int| 0 <= i < keys.len() ==> key_in_range(#[trigger] keys[i]),
        forall|i: int, j: int| 0 <= i < j < keys.len() ==> #[trigger] keys[i] != #[trigger] keys[j],
    ensures
        listed_faces(refs, axis, keys).to_multiset() == picked_faces(refs, axis, keys, key_count()),
    decreases keys.len(),
{
    broadcast use vstd::multiset::group_multiset_axioms;

    if keys.len() == 0 {
        lemma_picked_none(refs, axis, keys, key_count());
        assert(listed_faces(refs, axis, keys) =~= Seq::<u64>::empty());
        lemma_empty_to_multiset(listed_faces(refs, axis, keys));
    } else {
        let rest = keys.drop_last();
        let s = keys.last();
        assert(keys == rest.push(s));
        assert(!rest.contains(s)) by {
            if rest.contains(s) {
                let w = choose|w: int| 0 <= w < rest.len() && rest[w] == s;
                assert(keys[w] == keys[keys.len() - 1]);
            }
        }
        lemma_listed_picked(refs, axis, rest);
        lemma_picked_push(refs, axis, rest, s, key_count());
        lemma_key_order(s, 0);
        vstd::seq_lib::lemma_multiset_commutative(
            listed_faces(refs, axis, rest),
            group_instances(refs, axis, s),
        );
    }
}

proof fn lemma_empty_to_multiset(s: Seq<u64>)
    requires
        s.len() == 0,
    ensures
        s.to_multiset() == Multiset::<u64>::empty(),
{
    vstd::seq_lib::to_multiset_len(s);
    vstd::multiset::lemma_multiset_empty_len(s.to_multiset());
}

proof fn lemma_picked_none(refs: ChunkRefs, axis: int, keys: Seq<LayerKey>, n: int)
    requires
        keys.len() == 0,
    ensures
        picked_faces(refs, axis, keys, n) == Multiset::<u64>::empty(),
    decreases n,
{
    broadcast use vstd::multiset::group_multiset_axioms;

    if n > 0 {
        lemma_picked_none(refs, axis, keys, n - 1);
        assert(!keys.contains(key_at(n - 1)));
        assert(picked_faces(refs, axis, keys, n) =~= Multiset::<u64>::empty());
    }
}

/// A group's cells lie in the grid.
proof fn lemma_group_grid(refs: ChunkRefs, axis: int, key: LayerKey)
    ensures
        grid_set(group_cells(refs, axis, key)),
{
    let g = group_cells(refs, axis, key);
    vstd::set_lib::lemma_int_range(0, 1024);
    assert(g.subset_of(vstd::set_lib::set_int_range(0, 1024)));
    vstd::set_lib::lemma_set_subset_finite(vstd::set_lib::set_int_range(0, 1024), g);
}

/// A group without faces has no instances.
proof fn lemma_empty_group(refs: ChunkRefs, axis: int, key: LayerKey)
    requires
        forall|c: int| !group_cells(refs, axis, key).contains(c),
    ensures
        group_instances(refs, axis, key) == Seq::<u64>::empty(),
{
    let g = group_cells(refs, axis, key);
    lemma_group_grid(refs, axis, key);
    assert(g =~= Set::<int>::empty());
    assert(g.len() == 0);
    assert(group_instances(refs, axis, key) =~= Seq::<u64>::empty());
}

/// When `keys` lists every group that has faces, the groups it picks out are
/// all the instances of the mesh.
proof fn lemma_picked_all(refs: ChunkRefs, axis: int, keys: Seq<LayerKey>, n: int)
    requires
        0 <= n <= key_count(),
        forall|key: LayerKey, c: int|
            key_in_range(key) && #[trigger] group_cells(refs, axis, key).contains(c)
                ==> keys.contains(key),
    ensures
        picked_faces(refs, axis, keys, n) == faces_upto(refs, axis, n).to_multiset(),
    decreases n,
{
    broadcast use vstd::multiset::group_multiset_axioms;

    if n <= 0 {
        assert(faces_upto(refs, axis, n) =~= Seq::<u64>::empty());
        lemma_empty_to_multiset(faces_upto(refs, axis, n));
    } else {
        lemma_picked_all(refs, axis, keys, n - 1);
        let k = key_at(n - 1);
        lemma_key_order((0, 0, 0), n - 1);
        if !keys.contains(k) {
            assert forall|c: int| !group_cells(refs, axis, k).contains(c) by {
                if group_cells(refs, axis, k).contains(c) {
                    assert(keys.contains(k));
                }
            }
            lemma_empty_group(refs, axis, k);
        }
        vstd::seq_lib::lemma_multiset_commutative(
            faces_upto(refs, axis, n - 1),
            group_instances(refs, axis, k),
        );
        assert(picked_faces(refs, axis, keys, n) =~= faces_upto(refs, axis, n).to_multiset());
    }
}

/// Listing the groups in any order, each once and every one with faces,
/// gives the same instances as the mesh, counted with multiplicity.
proof fn lemma_listed_is_mesh(refs: ChunkRefs, axis: int, keys: Seq<LayerKey>)
    requires
        forall|i: int| 0 <= i < keys.len() ==> key_in_range(#[trigger] keys[i]),
        forall|i: int, j: int| 0 <= i < j < keys.len() ==> #[trigger] keys[i] != #[trigger] keys[j],
        forall|key: LayerKey, c: int|
            key_in_range(key) && #[trigger] group_cells(refs, axis, key).contains(c)
                ==> keys.contains(key),
    ensures
        listed_faces(refs, axis, keys).to_multiset() == mesh_faces(refs, axis).to_multiset(),
{
    lemma_listed_picked(refs, axis, keys);
    lemma_picked_all(refs, axis, keys, key_count());
}


/// At the end of grouping, the layer of every stored group holds exactly its
/// faces, and its key is in range.
proof fn lemma_groups_final(refs: ChunkRefs, axis: int, m: Map<LayerKey, Seq<u32>>, key: LayerKey)
    requires
        groups_ok(refs, axis, m, 1024, all_pending()),
        m.contains_key(key),
    ensures
        layer_cells(m[key]) == group_cells(refs, axis, key),
        key_in_range(key),
{
    assert(layer_of(m, key) == m[key]);
    assert forall|c: int| layer_cells(m[key]).contains(c) <==> group_cells(refs, axis, key).contains(
        c,
    ) by {
        if in_grid(c) {
            assert(bit_set(layer_of(m, key)[c / 32], c % 32) <==> (in_group(refs, axis, key, c)
                && grouped_before(key.2 as int, c, 1024, all_pending())));
        }
    }
    assert(layer_cells(m[key]) =~= group_cells(refs, axis, key));
}

/// At the end of grouping, every group with faces is stored.
proof fn lemma_groups_complete(
    refs: ChunkRefs,
    axis: int,
    m: Map<LayerKey, Seq<u32>>,
    key: LayerKey,
    c: int,
)
    requires
        groups_ok(refs, axis, m, 1024, all_pending()),
        group_cells(refs, axis, key).contains(c),
    ensures
        m.contains_key(key),
{
    assert(bit_set(layer_of(m, key)[c / 32], c % 32));
    if !m.contains_key(key) {
        lemma_all_bits((c % 32) as u32);
    }
}

/// The packed values of a sequence of instances.
pub open spec fn instance_data(s: Seq<Instance>) -> Seq<u64> {
    s.map_values(|inst: Instance| inst.0)
}

proof fn lemma_instance_data_push(s: Seq<Instance>, x: Instance)
    ensures
        instance_data(s.push(x)) == instance_data(s).push(x.0),
{
    assert(instance_data(s.push(x)) =~= instance_data(s).push(x.0));
}

/// The instance of one quad, as the mesher packs it.
fn pack_quad(direction: &FaceDirection, layer_index: u32, texture_id: u32, ao: u32, quad: &Quad) -> (r:
    u64)
    requires
        1 <= quad.w,
        1 <= quad.h,
    ensures
        forall|axis: int|
            #![trigger encode_instance(axis, (texture_id, ao, layer_index), *quad)]
            direction_of(axis) == *direction ==> r == encode_instance(
                axis,
                (texture_id, ao, layer_index),
                *quad,
            ),
{
    let x = quad.x;
    let y = quad.y;
    let w = quad.w;
    let h = quad.h;
    let mut encoded_data: u64 = 0;
    let position = match direction {
        FaceDirection::PosX | FaceDirection::NegX => UVec3::new(layer_index, x, y),
        FaceDirection::PosY | FaceDirection::NegY => UVec3::new(y, layer_index, x),
        FaceDirection::PosZ | FaceDirection::NegZ => UVec3::new(x, y, layer_index),
    };
    encoded_data |= position.x as u64;
    encoded_data |= (position.y as u64) << 5u64;
    encoded_data |= (position.z as u64) << 10u64;
    encoded_data |= (w as u64 - 1) << 15u64;
    encoded_data |= (h as u64 - 1) << 20u64;
    encoded_data |= (ao as u64) << 25u64;
    encoded_data |= (texture_id as u64) << 33u64;
    encoded_data
}

/// The direction that `mesh` uses for each axis.
spec fn direction_of(axis: int) -> FaceDirection {
    if axis == 0 {
        FaceDirection::PosX
    } else if axis == 1 {
        FaceDirection::NegX
    } else if axis == 2 {
        FaceDirection::PosY
    } else if axis == 3 {
        FaceDirection::NegY
    } else if axis == 4 {
        FaceDirection::PosZ
    } else {
        FaceDirection::NegZ
    }
}

/// The mesh of one face direction.
fn mesh_axis(chunk_refs: &ChunkRefs, culled: &[u64; 2048], axis: usize) -> (r: Vec<Instance>)
    requires
        axis < 6,
        faces_ok(*chunk_refs, culled@, axis as int),
    ensures
        instance_data(r@).to_multiset() == mesh_faces(
            *chunk_refs,
            axis as int,
        ).to_multiset(),
{
    let data = group_faces(chunk_refs, culled, axis);
    let entries = data.entries();
    let ghost m = face_layers_contents(data);
    let ghost keys = entries@.map_values(|e: (LayerKey, [u32; 32])| e.0);
    let direction = match axis {
        0 => FaceDirection::PosX,
        1 => FaceDirection::NegX,
        2 => FaceDirection::PosY,
        3 => FaceDirection::NegY,
        4 => FaceDirection::PosZ,
        _ => FaceDirection::NegZ,
    };
    assert(direction == direction_of(axis as int));
    let mut instances: Vec<Instance> = Vec::new();
    let mut e: usize = 0;
    while e < entries.len()
        invariant
            e <= entries.len(),
            keys == entries@.map_values(|en: (LayerKey, [u32; 32])| en.0),
            m == face_layers_contents(data),
            groups_ok(*chunk_refs, axis as int, m, 1024, all_pending()),
            forall|i: int| 0 <= i < entries.len() ==> m.contains_key(#[trigger] entries@[i].0) && m[entries@[i].0]
                == entries@[i].1@,
            direction == direction_of(axis as int),
            instance_data(instances@) == listed_faces(
                *chunk_refs,
                axis as int,
                keys.take(e as int),
            ),
        decreases entries.len() - e,
    {
        let (key, layer) = entries[e];
        proof {
            lemma_groups_final(*chunk_refs, axis as int, m, key);
        }
        let quads = greedy_mesh(&layer);
        let ghost done = instance_data(instances@);
        let ghost group = group_instances(*chunk_refs, axis as int, key);
        assert(quads@ == greedy_quads(group_cells(*chunk_refs, axis as int, key)));
        let mut qi: usize = 0;
        while qi < quads.len()
            invariant
                qi <= quads.len(),
                quads@ == greedy_quads(group_cells(*chunk_refs, axis as int, key)),
                forall|i: int| 0 <= i < quads.len() ==> quad_in_grid(#[trigger] quads@[i]),
                group == group_instances(*chunk_refs, axis as int, key),
                direction == direction_of(axis as int),
                instance_data(instances@) == done + group.take(qi as int),
            decreases quads.len() - qi,
        {
            let quad = &quads[qi];
            assert(quad_in_grid(quads@[qi as int]));
            let encoded_data = pack_quad(&direction, key.2, key.0, key.1, quad);
            assert(encoded_data == encode_instance(axis as int, (key.0, key.1, key.2), *quad));
            assert(key == (key.0, key.1, key.2));
            let ghost before = instances@;
            instances.push(Instance(encoded_data));
            proof {
                assert(instances@ == before.push(Instance(encoded_data)));
                lemma_instance_data_push(before, Instance(encoded_data));
                assert(group[qi as int] == encode_instance(axis as int, key, quads@[qi as int]));
                assert(instance_data(instances@) =~= done + group.take(qi + 1));
            }
            qi += 1;
        }
        proof {
            assert(group.take(quads.len() as int) =~= group);
            assert(keys.take(e + 1).drop_last() =~= keys.take(e as int));
            assert(keys.take(e + 1).last() == key);
        }
        e += 1;
    }
    proof {
        assert(keys.take(entries.len() as int) =~= keys);
        assert forall|i: int| 0 <= i < keys.len() implies key_in_range(#[trigger] keys[i]) by {
            lemma_groups_final(*chunk_refs, axis as int, m, entries@[i].0);
        }
        assert forall|i: int, j: int| 0 <= i < j < keys.len() implies #[trigger] keys[i]
            != #[trigger] keys[j] by {
            assert(entries@[i].0 != entries@[j].0);
        }
        assert forall|key: LayerKey, c: int|
            key_in_range(key) && #[trigger] group_cells(*chunk_refs, axis as int, key).contains(c)
                implies keys.contains(key) by {
            lemma_groups_complete(*chunk_refs, axis as int, m, key, c);
            let i = choose|i: int| 0 <= i < entries.len() && #[trigger] entries@[i].0 == key;
            assert(keys[i] == key);
        }
        lemma_listed_is_mesh(*chunk_refs, axis as int, keys);
    }
    instances
}


/// Every voxel of the chunk is empty (stored as 0).
fn all_empty(chunk: &Chunk) -> (r: bool)
    ensures
        r == forall|i: int| 0 <= i < 32768 ==> chunk.voxels@[i] == 0u32,
{
    let mut idx: usize = 0;
    while idx < 32768
        invariant
            idx <= 32768,
            forall|i: int| 0 <= i < idx ==> chunk.voxels@[i] == 0u32,
        decreases 32768 - idx,
    {
        if chunk.voxels[idx] != 0 {
            return false;
        }
        idx += 1;
    }
    true
}

/// A centre chunk whose voxels are all empty has no faces in any direction.
pub proof fn lemma_empty_centre(refs: ChunkRefs, axis: int)
    requires
        forall|i: int| 0 <= i < 32768 ==> refs.refs@[13].voxels@[i] == 0u32,
    ensures
        mesh_faces(refs, axis).to_multiset() == Multiset::<u64>::empty(),
{
    let keys = Seq::<LayerKey>::empty();
    assert forall|key: LayerKey, c: int|
        key_in_range(key) && #[trigger] group_cells(refs, axis, key).contains(c) implies keys.contains(
        key,
    ) by {
        let p = face_position(axis, key.2 as int, c / 32, c % 32);
        lemma_neighbourhood_lookup(p.0, p.1, p.2);
        assert(refs.voxel(p).solid());
    }
    lemma_listed_is_mesh(refs, axis, keys);
    assert(listed_faces(refs, axis, keys) =~= Seq::<u64>::empty());
    lemma_empty_to_multiset(listed_faces(refs, axis, keys));
}

// ---------------------------------------------------------------------------
// What the instances show.
// ---------------------------------------------------------------------------

/// The layer of the face of `p` towards `axis`: its coordinate along the
/// axis.
pub open spec fn face_layer(axis: int, p: Triple) -> int {
    if axis == 0 || axis == 1 {
        p.0
    } else if axis == 2 || axis == 3 {
        p.1
    } else {
        p.2
    }
}

/// The cell `i * 32 + j` of the face of `p` in its layer, for the `(i, j)`
/// with `face_position(axis, layer, i, j) == p`.
pub open spec fn face_cell(axis: int, p: Triple) -> int {
    if axis == 0 || axis == 1 {
        p.1 * 32 + p.2
    } else if axis == 2 || axis == 3 {
        p.2 * 32 + p.0
    } else {
        p.0 * 32 + p.1
    }
}

/// The voxel where instance `v` starts: its three 5-bit fields.
pub open spec fn instance_start(v: u64) -> Triple {
    ((v & 31) as int, ((v >> 5u64) & 31) as int, ((v >> 10u64) & 31) as int)
}

/// The quad of instance `v` of direction `axis`, in the layer where it lies.
pub open spec fn instance_quad(axis: int, v: u64) -> Quad {
    let c = face_cell(axis, instance_start(v));
    Quad {
        x: (c / 32) as u32,
        y: (c % 32) as u32,
        w: (((v >> 15u64) & 31) + 1) as u32,
        h: (((v >> 20u64) & 31) + 1) as u32,
    }
}

/// Instance `v` of direction `axis` covers the face of the voxel at `p`.
pub open spec fn instance_covers(axis: int, v: u64, p: Triple) -> bool {
    &&& face_layer(axis, instance_start(v)) == face_layer(axis, p)
    &&& quad_covers(instance_quad(axis, v), face_cell(axis, p))
}

/// The texture field of an instance.
pub open spec fn instance_texture(v: u64) -> int {
    (v >> 33u64) as int
}

/// The ambient occlusion field of an instance.
pub open spec fn instance_ao(v: u64) -> u32 {
    ((v >> 25u64) & 255) as u32
}

/// The group that the face of `p` towards `axis` falls in.
pub open spec fn face_key(refs: ChunkRefs, axis: int, p: Triple) -> LayerKey {
    (face_texture(refs, p) as u32, face_ao(refs, axis, p), face_layer(axis, p) as u32)
}

/// Voxel `p` of the centre chunk.
pub open spec fn in_chunk(p: Triple) -> bool {
    0 <= p.0 < 32 && 0 <= p.1 < 32 && 0 <= p.2 < 32
}

proof fn lemma_face_coords(axis: int, k: int, i: int, j: int)
    requires
        0 <= i < 32,
        0 <= j < 32,
    ensures
        face_layer(axis, face_position(axis, k, i, j)) == k,
        face_cell(axis, face_position(axis, k, i, j)) == i * 32 + j,
        (i * 32 + j) / 32 == i,
        (i * 32 + j) % 32 == j,
{
}

proof fn lemma_face_of(axis: int, p: Triple)
    requires
        in_chunk(p),
    ensures
        0 <= face_cell(axis, p) < 1024,
        face_position(axis, face_layer(axis, p), face_cell(axis, p) / 32, face_cell(axis, p) % 32)
            == p,
{
}

/// What an instance made of quad `q` of group `key` unpacks to.
proof fn lemma_encoded_quad(axis: int, key: LayerKey, q: Quad)
    requires
        quad_in_grid(q),
        key.0 < 0x8000_0000,
        key.1 < 256,
        key.2 < 32,
    ensures
        ({
            let v = encode_instance(axis, key, q);
            &&& face_layer(axis, instance_start(v)) == key.2
            &&& instance_quad(axis, v) == q
            &&& instance_texture(v) == key.0
            &&& instance_ao(v) == key.1
        }),
{
    let v = encode_instance(axis, key, q);
    lemma_instance_fields(axis, key, q);
    lemma_face_coords(axis, key.2 as int, q.x as int, q.y as int);
    assert(instance_start(v) == face_position(axis, key.2 as int, q.x as int, q.y as int));
}

/// Within one group, the instance that covers a face is the one whose quad
/// covers its cell; there is one when the face is in the group, and never
/// two.
proof fn lemma_group_cover(refs: ChunkRefs, axis: int, key: LayerKey, p: Triple)
    requires
        0 <= axis < 6,
        in_chunk(p),
        key_in_range(key),
    ensures
        ({
            let gi = group_instances(refs, axis, key);
            &&& forall|t: int|
                0 <= t < gi.len() && #[trigger] instance_covers(axis, gi[t], p) ==> key == face_key(
                    refs,
                    axis,
                    p,
                ) && face_visible(refs, axis, p) && instance_texture(gi[t]) == face_texture(refs, p)
                    && instance_ao(gi[t]) == face_ao(refs, axis, p)
            &&& forall|t1: int, t2: int|
                0 <= t1 < gi.len() && 0 <= t2 < gi.len() && t1 != t2 && #[trigger] instance_covers(
                    axis,
                    gi[t1],
                    p,
                ) ==> !#[trigger] instance_covers(axis, gi[t2], p)
            &&& key == face_key(refs, axis, p) && face_visible(refs, axis, p) ==> exists|t: int|
                0 <= t < gi.len() && #[trigger] instance_covers(axis, gi[t], p)
        }),
{
    let cells = group_cells(refs, axis, key);
    let quads = greedy_quads(cells);
    let gi = group_instances(refs, axis, key);
    lemma_group_grid(refs, axis, key);
    lemma_greedy_tiles_exactly(cells);
    lemma_face_of(axis, p);
    let c = face_cell(axis, p);
    assert forall|t: int| 0 <= t < gi.len() implies (#[trigger] instance_covers(axis, gi[t], p) <==> (
    key.2 == face_layer(axis, p) && quad_covers(quads[t], c))) by {
        assert(quad_in_grid(quads[t]));
        lemma_encoded_quad(axis, key, quads[t]);
    }
    assert forall|t: int|
        0 <= t < gi.len() && #[trigger] instance_covers(axis, gi[t], p) implies key == face_key(
        refs,
        axis,
        p,
    ) && face_visible(refs, axis, p) && instance_texture(gi[t]) == face_texture(refs, p) && instance_ao(
        gi[t],
    ) == face_ao(refs, axis, p) by {
        assert(quad_covers(quads[t], c));
        assert(cells.contains(c));
        assert(in_group(refs, axis, key, c));
        assert(quad_in_grid(quads[t]));
        lemma_encoded_quad(axis, key, quads[t]);
    }
    if key == face_key(refs, axis, p) && face_visible(refs, axis, p) {
        lemma_ao_packed_bound(refs, UVec3 { x: p.0 as u32, y: p.1 as u32, z: p.2 as u32 }, axis);
        assert(in_group(refs, axis, key, c));
        assert(cells.contains(c));
        let t = choose|t: int| 0 <= t < quads.len() && quad_covers(#[trigger] quads[t], c);
        assert(instance_covers(axis, gi[t], p));
    }
}

/// The first `n` groups in key order: a face is covered at most once, only
/// when it is visible, with its own texture and occlusion, and it is
/// covered once its group is among them.
proof fn lemma_faces_upto_cover(refs: ChunkRefs, axis: int, p: Triple, n: int)
    requires
        0 <= axis < 6,
        in_chunk(p),
        0 <= n <= key_count(),
    ensures
        ({
            let s = faces_upto(refs, axis, n);
            &&& forall|m: int|
                0 <= m < s.len() && #[trigger] instance_covers(axis, s[m], p) ==> face_visible(
                    refs,
                    axis,
                    p,
                ) && instance_texture(s[m]) == face_texture(refs, p) && instance_ao(s[m]) == face_ao(
                    refs,
                    axis,
                    p,
                ) && key_index(face_key(refs, axis, p)) < n
            &&& forall|m1: int, m2: int|
                0 <= m1 < m2 < s.len() && #[trigger] instance_covers(axis, s[m1], p)
                    ==> !#[trigger] instance_covers(axis, s[m2], p)
            &&& face_visible(refs, axis, p) && key_index(face_key(refs, axis, p)) < n ==> exists|m: int|
                0 <= m < s.len() && #[trigger] instance_covers(axis, s[m], p)
        }),
    decreases n,
{
    if n > 0 {
        lemma_faces_upto_cover(refs, axis, p, n - 1);
        let prev = faces_upto(refs, axis, n - 1);
        let g = key_at(n - 1);
        let gi = group_instances(refs, axis, g);
        let s = faces_upto(refs, axis, n);
        assert(s == prev + gi);
        let kp = face_key(refs, axis, p);
        lemma_key_order(g, n - 1);
        lemma_group_cover(refs, axis, g, p);
        if face_visible(refs, axis, p) {
            lemma_ao_packed_bound(refs, UVec3 { x: p.0 as u32, y: p.1 as u32, z: p.2 as u32 }, axis);
            assert(key_in_range(kp));
            lemma_key_order(kp, n - 1);
        }
        assert forall|m: int| 0 <= m < s.len() && #[trigger] instance_covers(axis, s[m], p) implies face_visible(
            refs,
            axis,
            p,
        ) && instance_texture(s[m]) == face_texture(refs, p) && instance_ao(s[m]) == face_ao(
            refs,
            axis,
            p,
        ) && key_index(face_key(refs, axis, p)) < n by {
            if m < prev.len() {
                assert(s[m] == prev[m]);
            } else {
                assert(s[m] == gi[m - prev.len()]);
                assert(instance_covers(axis, gi[m - prev.len()], p));
            }
        }
        assert forall|m1: int, m2: int|
            0 <= m1 < m2 < s.len() && #[trigger] instance_covers(axis, s[m1], p) implies !#[trigger] instance_covers(
            axis,
            s[m2],
            p,
        ) by {
            if instance_covers(axis, s[m2], p) {
                if m2 < prev.len() {
                    assert(s[m1] == prev[m1]);
                    assert(s[m2] == prev[m2]);
                } else if m1 < prev.len() {
                    assert(s[m1] == prev[m1]);
                    assert(instance_covers(axis, prev[m1], p));
                    assert(s[m2] == gi[m2 - prev.len()]);
                    assert(instance_covers(axis, gi[m2 - prev.len()], p));
                } else {
                    assert(s[m1] == gi[m1 - prev.len()]);
                    assert(s[m2] == gi[m2 - prev.len()]);
                    assert(instance_covers(axis, gi[m1 - prev.len()], p));
                }
            }
        }
        if face_visible(refs, axis, p) && key_index(kp) < n {
            if key_index(kp) < n - 1 {
                let m = choose|m: int| 0 <= m < prev.len() && #[trigger] instance_covers(axis, prev[m], p);
                assert(s[m] == prev[m]);
            } else {
                let t = choose|t: int| 0 <= t < gi.len() && #[trigger] instance_covers(axis, gi[t], p);
                assert(s[prev.len() + t] == gi[t]);
            }
        }
    }
}

/// The instances of a direction show exactly the visible faces of the
/// centre chunk towards it: the face of a voxel is covered by an instance
/// if and only if it is visible, never by two, and the instance that covers
/// it carries the face's texture and ambient occlusion.
pub proof fn lemma_mesh_shows_visible_faces(refs: ChunkRefs, axis: int, p: Triple)
    requires
        0 <= axis < 6,
        in_chunk(p),
    ensures
        ({
            let s = mesh_faces(refs, axis);
            &&& face_visible(refs, axis, p) <==> exists|m: int|
                0 <= m < s.len() && #[trigger] instance_covers(axis, s[m], p)
            &&& forall|m1: int, m2: int|
                0 <= m1 < m2 < s.len() && #[trigger] instance_covers(axis, s[m1], p)
                    ==> !#[trigger] instance_covers(axis, s[m2], p)
            &&& forall|m: int|
                0 <= m < s.len() && #[trigger] instance_covers(axis, s[m], p) ==> instance_texture(s[m])
                    == face_texture(refs, p) && instance_ao(s[m]) == face_ao(refs, axis, p)
        }),
{
    lemma_faces_upto_cover(refs, axis, p, key_count());
    if face_visible(refs, axis, p) {
        lemma_ao_packed_bound(refs, UVec3 { x: p.0 as u32, y: p.1 as u32, z: p.2 as u32 }, axis);
        assert(key_in_range(face_key(refs, axis, p)));
        lemma_key_order(face_key(refs, axis, p), 0);
    }
    assert(mesh_faces(refs, axis) == faces_upto(refs, axis, key_count()));
}

proof fn lemma_count_two(s: Seq<u64>, i: int, j: int)
    requires
        0 <= i < s.len(),
        0 <= j < s.len(),
        i != j,
        s[i] == s[j],
    ensures
        s.to_multiset().count(s[i]) >= 2,
{
    s.to_multiset_ensures();
    let r = s.remove(i);
    r.to_multiset_ensures();
    let k = if j < i { j } else { j - 1 };
    assert(r[k] == s[j]);
    assert(r.contains(s[i]));
    assert(r.to_multiset().count(s[i]) > 0);
    assert(r.to_multiset() == s.to_multiset().remove(s[i]));
}

proof fn lemma_second_index(s: Seq<u64>, i: int)
    requires
        0 <= i < s.len(),
        s.to_multiset().count(s[i]) >= 2,
    ensures
        exists|j: int| 0 <= j < s.len() && j != i && s[j] == s[i],
{
    s.to_multiset_ensures();
    let r = s.remove(i);
    r.to_multiset_ensures();
    assert(r.to_multiset() == s.to_multiset().remove(s[i]));
    assert(r.to_multiset().count(s[i]) > 0);
    assert(r.contains(s[i]));
    let k = choose|k: int| 0 <= k < r.len() && r[k] == s[i];
    if k < i {
        assert(s[k] == s[i]);
    } else {
        assert(s[k + 1] == s[i]);
    }
}

/// What `mesh` returns for a direction (any list of the instances of
/// `mesh_faces`, in any order) shows exactly the visible faces of the
/// centre chunk towards it: a face is covered if and only if it is visible,
/// never by two instances, and by one that carries the face's texture and
/// ambient occlusion.
pub proof fn lemma_mesh_output_shows_visible_faces(
    refs: ChunkRefs,
    axis: int,
    s: Seq<u64>,
    p: Triple,
)
    requires
        0 <= axis < 6,
        in_chunk(p),
        s.to_multiset() == mesh_faces(refs, axis).to_multiset(),
    ensures
        face_visible(refs, axis, p) <==> exists|m: int|
            0 <= m < s.len() && #[trigger] instance_covers(axis, s[m], p),
        forall|m1: int, m2: int|
            0 <= m1 < m2 < s.len() && #[trigger] instance_covers(axis, s[m1], p)
                ==> !#[trigger] instance_covers(axis, s[m2], p),
        forall|m: int|
            0 <= m < s.len() && #[trigger] instance_covers(axis, s[m], p) ==> instance_texture(s[m])
                == face_texture(refs, p) && instance_ao(s[m]) == face_ao(refs, axis, p),
{
    let f = mesh_faces(refs, axis);
    lemma_mesh_shows_visible_faces(refs, axis, p);
    s.to_multiset_ensures();
    f.to_multiset_ensures();
    assert forall|m: int| 0 <= m < s.len() implies exists|i: int|
        0 <= i < f.len() && f[i] == #[trigger] s[m] by {
        assert(s.contains(s[m]));
        assert(s.to_multiset().count(s[m]) > 0);
        assert(f.to_multiset().count(s[m]) > 0);
        assert(f.contains(s[m]));
    }
    if face_visible(refs, axis, p) {
        let i = choose|i: int| 0 <= i < f.len() && #[trigger] instance_covers(axis, f[i], p);
        assert(f.contains(f[i]));
        assert(f.to_multiset().count(f[i]) > 0);
        assert(s.to_multiset().count(f[i]) > 0);
        assert(s.contains(f[i]));
        let m = choose|m: int| 0 <= m < s.len() && s[m] == f[i];
        assert(instance_covers(axis, s[m], p));
    }
    assert forall|m: int|
        0 <= m < s.len() && #[trigger] instance_covers(axis, s[m], p) implies face_visible(
        refs,
        axis,
        p,
    ) && instance_texture(s[m]) == face_texture(refs, p) && instance_ao(s[m]) == face_ao(
        refs,
        axis,
        p,
    ) by {
        let i = choose|i: int| 0 <= i < f.len() && f[i] == s[m];
        assert(instance_covers(axis, f[i], p));
    }
    assert forall|m1: int, m2: int|
        0 <= m1 < m2 < s.len() && #[trigger] instance_covers(axis, s[m1], p) implies !#[trigger] instance_covers(
        axis,
        s[m2],
        p,
    ) by {
        if instance_covers(axis, s[m2], p) {
            let i1 = choose|i: int| 0 <= i < f.len() && f[i] == s[m1];
            let i2 = choose|i: int| 0 <= i < f.len() && f[i] == s[m2];
            assert(instance_covers(axis, f[i1], p));
            assert(instance_covers(axis, f[i2], p));
            if i1 == i2 {
                lemma_count_two(s, m1, m2);
                lemma_second_index(f, i1);
                let j = choose|j: int| 0 <= j < f.len() && j != i1 && f[j] == f[i1];
                assert(instance_covers(axis, f[j], p));
                if j < i1 {
                    assert(!instance_covers(axis, f[i1], p));
                } else {
                    assert(!instance_covers(axis, f[j], p));
                }
            } else if i1 < i2 {
                assert(!instance_covers(axis, f[i2], p));
            } else {
                assert(!instance_covers(axis, f[i1], p));
            }
        }
    }
}

/// The mesh of a chunk, given the chunks around it: for each of the six
/// face directions (+x, -x, +y, -y, +z, -z) the instances of its visible
/// faces. Faces are grouped by texture, ambient occlusion and layer, each
/// group is merged by `greedy_mesh`, and each quad becomes one instance.
/// The order of the instances of a direction follows the order in which
/// the grouping map hands out its groups; what the list holds, counted with
/// multiplicity, is fixed: `mesh_faces`.
pub fn mesh(chunk_refs: ChunkRefs) -> (r: [Vec<Instance>; 6])
    ensures
        forall|a: int|
            0 <= a < 6 ==> #[trigger] instance_data(r@[a]@).to_multiset() == mesh_faces(
                chunk_refs,
                a,
            ).to_multiset(),
{
    if all_empty(&chunk_refs.refs[13]) {
        let r = [Vec::new(), Vec::new(), Vec::new(), Vec::new(), Vec::new(), Vec::new()];
        proof {
            assert forall|a: int| 0 <= a < 6 implies #[trigger] instance_data(r@[a]@).to_multiset()
                == mesh_faces(chunk_refs, a).to_multiset() by {
                lemma_empty_centre(chunk_refs, a);
                assert(instance_data(r@[a]@) =~= Seq::<u64>::empty());
                lemma_empty_to_multiset(instance_data(r@[a]@));
            }
        }
        return r;
    }
    let (occupied_x, occupied_y, occupied_z) = occupancy(&chunk_refs);
    let (culled_mask_x, culled_mask_y, culled_mask_z) = cull_columns(
        &occupied_x,
        &occupied_y,
        &occupied_z,
    );
    proof {
        lemma_culled_faces(chunk_refs, occupied_x@, culled_mask_x@, 0);
        lemma_culled_faces(chunk_refs, occupied_x@, culled_mask_x@, 1);
        lemma_culled_faces(chunk_refs, occupied_y@, culled_mask_y@, 2);
        lemma_culled_faces(chunk_refs, occupied_y@, culled_mask_y@, 3);
        lemma_culled_faces(chunk_refs, occupied_z@, culled_mask_z@, 4);
        lemma_culled_faces(chunk_refs, occupied_z@, culled_mask_z@, 5);
    }
    let mut instances: [Vec<Instance>; 6] = [
        Vec::new(),
        Vec::new(),
        Vec::new(),
        Vec::new(),
        Vec::new(),
        Vec::new(),
    ];
    let mut axis: usize = 0;
    while axis < 6
        invariant
            axis <= 6,
            faces_ok(chunk_refs, culled_mask_x@, 0),
            faces_ok(chunk_refs, culled_mask_x@, 1),
            faces_ok(chunk_refs, culled_mask_y@, 2),
            faces_ok(chunk_refs, culled_mask_y@, 3),
            faces_ok(chunk_refs, culled_mask_z@, 4),
            faces_ok(chunk_refs, culled_mask_z@, 5),
            forall|a: int|
                0 <= a < axis ==> #[trigger] instance_data(instances@[a]@).to_multiset() == mesh_faces(
                    chunk_refs,
                    a,
                ).to_multiset(),
        decreases 6 - axis,
    {
        let culled = match axis {
            0 | 1 => &culled_mask_x,
            2 | 3 => &culled_mask_y,
            _ => &culled_mask_z,
        };
        let faces = mesh_axis(&chunk_refs, culled, axis);
        instances[axis] = faces;
        axis += 1;
    }
    instances
}

} // verus!
