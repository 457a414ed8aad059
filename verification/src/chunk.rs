//! Chunks of voxels, the 3x3x3 neighbourhood of a chunk, and the ambient
//! occlusion of a voxel face.
use std::sync::Arc;

use vstd::prelude::*;

use crate::constants::CHUNK_SIZE3_U;
use crate::position::{IVec3, UVec3, UVec3Ext};

pub use crate::greedy::{greedy_mesh, Quad};
pub use crate::mesh::mesh;

verus! {

/// One face instance of a mesh, packed into 64 bits: x (5 bits), y (5),
/// z (5), width - 1 (5), height - 1 (5), ambient occlusion (8), texture (31).
#[derive(Debug, Copy, Clone, PartialEq, Eq, Structural)]
pub struct Instance(pub u64);

/// The kind of a voxel; a chunk stores it as the number of its variant.
#[derive(Copy, Clone, Debug, PartialEq, Eq, Structural)]
pub enum VoxelType {
    Empty,
    Dirt,
    Grass,
    Stone,
}

/// The voxel kind that a stored number stands for: 1, 2, 3 are dirt, grass
/// and stone, every other number is empty.
pub open spec fn voxel_of(v: u32) -> VoxelType {
    if v == 1 {
        VoxelType::Dirt
    } else if v == 2 {
        VoxelType::Grass
    } else if v == 3 {
        VoxelType::Stone
    } else {
        VoxelType::Empty
    }
}

/// The number under which a voxel kind is stored.
pub open spec fn voxel_code(t: VoxelType) -> u32 {
    match t {
        VoxelType::Empty => 0,
        VoxelType::Dirt => 1,
        VoxelType::Grass => 2,
        VoxelType::Stone => 3,
    }
}

impl From<u32> for VoxelType {
    fn from(v: u32) -> (r: VoxelType) {
        match v {
            1 => VoxelType::Dirt,
            2 => VoxelType::Grass,
            3 => VoxelType::Stone,
            _ => VoxelType::Empty,
        }
    }
}

impl vstd::std_specs::convert::FromSpecImpl<u32> for VoxelType {
    open spec fn obeys_from_spec() -> bool {
        true
    }

    open spec fn from_spec(v: u32) -> VoxelType {
        voxel_of(v)
    }
}

impl VoxelType {
    /// Every kind but `Empty` is solid.
    pub open spec fn solid(self) -> bool {
        self != VoxelType::Empty
    }

    pub fn is_solid(&self) -> (r: bool)
        ensures
            r == self.solid(),
    {
        *self != VoxelType::Empty
    }

    /// The number under which this kind is stored in a chunk.
    pub fn code(self) -> (r: u32)
        ensures
            r == voxel_code(self),
            voxel_of(r) == self,
    {
        match self {
            VoxelType::Empty => 0,
            VoxelType::Dirt => 1,
            VoxelType::Grass => 2,
            VoxelType::Stone => 3,
        }
    }
}

/// A cube of 32x32x32 voxels; voxel `(x, y, z)` is stored at index
/// `x * 1024 + y * 32 + z`.
#[derive(Copy, Clone)]
pub struct Chunk {
    pub voxels: [u32; CHUNK_SIZE3_U],
}

/// The stored number of the terrain voxel at height `y` of a chunk whose
/// grid height is `chunk_y`, in a column whose ground is at `height` and
/// whose stone starts at `dirt`: stone below the ground from `dirt` up, dirt
/// below the ground under that, grass at the ground, empty above it.
pub open spec fn terrain_code(chunk_y: int, height: int, dirt: int, y: int) -> u32 {
    let global_y = chunk_y * 32 + y;
    if global_y < height && global_y >= dirt {
        3
    } else if global_y < height {
        1
    } else if global_y == height {
        2
    } else {
        0
    }
}

/// What a terrain voxel at height `g` is, in a column whose ground is at
/// `h` and whose stone starts at `d`: grass exactly at the ground, solid
/// exactly at and below it, empty above; below the ground stone from `d`
/// up and dirt under `d`.
pub open spec fn terrain_voxel_ok(v: u32, g: int, h: int, d: int) -> bool {
    &&& (v == 2) == (g == h)
    &&& (v == 0) == (g > h)
    &&& (v == 3) == (d <= g && g < h)
    &&& (v == 1) == (g < h && g < d)
}

/// The terrain voxel at index `i` of a generated chunk.
pub open spec fn terrain_at(position: IVec3, heights: Seq<i32>, dirt: Seq<i32>, i: int) -> u32 {
    let x = i / 1024;
    let y = (i % 1024) / 32;
    let z = i % 32;
    terrain_code(position.y as int, heights[x * 32 + z] as int, dirt[x * 32 + z] as int, y)
}

/// Generation visits columns `(x, z)` in order of `x * 32 + z`, and each
/// column from `y = 0` up; voxel `i` has been filled once the visit has
/// passed it.
pub open spec fn terrain_filled(i: int, x: int, z: int, y: int) -> bool {
    let col = (i / 1024) * 32 + i % 32;
    col < x * 32 + z || (col == x * 32 + z && (i % 1024) / 32 < y)
}

proof fn lemma_voxel_index(x: int, y: int, z: int)
    by (nonlinear_arith)
    requires
        0 <= x < 32,
        0 <= y < 32,
        0 <= z < 32,
    ensures
        0 <= x * 1024 + y * 32 + z < 32768,
        (x * 1024 + y * 32 + z) / 1024 == x,
        ((x * 1024 + y * 32 + z) % 1024) / 32 == y,
        (x * 1024 + y * 32 + z) % 32 == z,
{
}

proof fn lemma_index_voxel(i: int)
    by (nonlinear_arith)
    requires
        0 <= i < 32768,
    ensures
        0 <= i / 1024 < 32,
        0 <= (i % 1024) / 32 < 32,
        0 <= i % 32 < 32,
        i == (i / 1024) * 1024 + ((i % 1024) / 32) * 32 + i % 32,
{
}

/// Generated terrain follows the column heights: voxel `(x, y, z)`, at
/// index `x * 1024 + y * 32 + z` and height `position.y * 32 + y`, takes the
/// ground height `heights[x * 32 + z]` and stone level
/// `dirt_levels[x * 32 + z]` of its own column, and is grass exactly at the
/// ground, solid exactly at and below it, empty above.
pub proof fn lemma_terrain_at_columns(position: IVec3, heights: Seq<i32>, dirt: Seq<i32>, i: int)
    requires
        0 <= i < 32768,
    ensures
        terrain_voxel_ok(
            terrain_at(position, heights, dirt, i),
            position.y * 32 + (i % 1024) / 32,
            heights[(i / 1024) * 32 + i % 32] as int,
            dirt[(i / 1024) * 32 + i % 32] as int,
        ),
{
    lemma_index_voxel(i);
}

impl Chunk {
    /// The chunk at grid position `position` of a terrain whose ground height
    /// in column `(x, z)` is `heights[x * 32 + z]` and whose stone starts at
    /// `dirt_levels[x * 32 + z]`: voxel `(x, y, z)`, at index
    /// `x * 1024 + y * 32 + z` and height `position.y * 32 + y`, is grass
    /// exactly at the column's ground, solid exactly below it and empty above.
    pub fn new_terrain(position: IVec3, heights: &[i32; 1024], dirt_levels: &[i32; 1024]) -> (r:
        Chunk)
        requires
            i32::MIN <= position.y * 32,
            position.y * 32 + 31 <= i32::MAX,
        ensures
            forall|i: int|
                0 <= i < 32768 ==> #[trigger] r.voxels@[i] == terrain_at(
                    position,
                    heights@,
                    dirt_levels@,
                    i,
                ),
            forall|i: int|
                0 <= i < 32768 ==> terrain_voxel_ok(
                    #[trigger] r.voxels@[i],
                    position.y * 32 + (i % 1024) / 32,
                    heights@[(i / 1024) * 32 + i % 32] as int,
                    dirt_levels@[(i / 1024) * 32 + i % 32] as int,
                ),
    {
        let mut voxels = [0u32; CHUNK_SIZE3_U];
        let mut x: u32 = 0;
        while x < 32
            invariant
                x <= 32,
                i32::MIN <= position.y * 32,
                position.y * 32 + 31 <= i32::MAX,
                voxels@.len() == 32768,
                forall|i: int|
                    0 <= i < 32768 ==> #[trigger] voxels@[i] == if terrain_filled(i, x as int, 0, 0) {
                        terrain_at(position, heights@, dirt_levels@, i)
                    } else {
                        0u32
                    },
            decreases 32 - x,
        {
            let mut z: u32 = 0;
            while z < 32
                invariant
                    x < 32,
                    z <= 32,
                    i32::MIN <= position.y * 32,
                    position.y * 32 + 31 <= i32::MAX,
                    voxels@.len() == 32768,
                    forall|i: int|
                        0 <= i < 32768 ==> #[trigger] voxels@[i] == if terrain_filled(i, x as int, z as int, 0) {
                            terrain_at(position, heights@, dirt_levels@, i)
                        } else {
                            0u32
                        },
                decreases 32 - z,
            {
                let h = heights[(x * 32 + z) as usize];
                let dirt_level = dirt_levels[(x * 32 + z) as usize];
                let mut y: u32 = 0;
                while y < 32
                    invariant
                        x < 32,
                        z < 32,
                        y <= 32,
                        i32::MIN <= position.y * 32,
                        position.y * 32 + 31 <= i32::MAX,
                        h == heights@[x * 32 + z],
                        dirt_level == dirt_levels@[x * 32 + z],
                        voxels@.len() == 32768,
                        forall|i: int|
                            0 <= i < 32768 ==> #[trigger] voxels@[i] == if terrain_filled(
                                i,
                                x as int,
                                z as int,
                                y as int,
                            ) {
                                terrain_at(position, heights@, dirt_levels@, i)
                            } else {
                                0u32
                            },
                    decreases 32 - y,
                {
                    let global_y = position.y * 32 + y as i32;
                    let idx = UVec3::new(x, y, z).to_index() as usize;
                    let ghost prev = voxels@;
                    proof {
                        lemma_voxel_index(x as int, y as int, z as int);
                    }
                    if global_y < h && global_y >= dirt_level {
                        voxels[idx] = VoxelType::Stone.code();
                    } else if global_y < h {
                        voxels[idx] = VoxelType::Dirt.code();
                    } else if global_y == h {
                        voxels[idx] = VoxelType::Grass.code();
                    }
                    proof {
                        assert(voxels@[idx as int] == terrain_at(
                            position,
                            heights@,
                            dirt_levels@,
                            idx as int,
                        ));
                        assert forall|i: int| 0 <= i < 32768 implies #[trigger] voxels@[i] == if terrain_filled(
                            i,
                            x as int,
                            z as int,
                            y + 1,
                        ) {
                            terrain_at(position, heights@, dirt_levels@, i)
                        } else {
                            0u32
                        } by {
                            lemma_index_voxel(i);
                            if i != idx {
                                assert(voxels@[i] == prev[i]);
                                if (i / 1024) * 32 + i % 32 == x * 32 + z && (i % 1024) / 32 == y {
                                    assert(i == idx);
                                }
                            }
                        }
                    }
                    y += 1;
                }
                proof {
                    assert forall|i: int| 0 <= i < 32768 implies #[trigger] voxels@[i] == if terrain_filled(
                        i,
                        x as int,
                        z + 1,
                        0,
                    ) {
                        terrain_at(position, heights@, dirt_levels@, i)
                    } else {
                        0u32
                    } by {
                        lemma_index_voxel(i);
                    }
                }
                z += 1;
            }
            proof {
                assert forall|i: int| 0 <= i < 32768 implies #[trigger] voxels@[i] == if terrain_filled(
                    i,
                    x + 1,
                    0,
                    0,
                ) {
                    terrain_at(position, heights@, dirt_levels@, i)
                } else {
                    0u32
                } by {
                    lemma_index_voxel(i);
                }
            }
            x += 1;
        }
        proof {
            assert forall|i: int| 0 <= i < 32768 implies #[trigger] voxels@[i] == terrain_at(
                position,
                heights@,
                dirt_levels@,
                i,
            ) by {
                lemma_index_voxel(i);
            }
        }
        proof {
            assert forall|i: int| 0 <= i < 32768 implies terrain_voxel_ok(
                #[trigger] voxels@[i],
                position.y * 32 + (i % 1024) / 32,
                heights@[(i / 1024) * 32 + i % 32] as int,
                dirt_levels@[(i / 1024) * 32 + i % 32] as int,
            ) by {
                lemma_terrain_at_columns(position, heights@, dirt_levels@, i);
                assert(voxels@[i] == terrain_at(position, heights@, dirt_levels@, i));
            }
        }
        Chunk { voxels }
    }

    /// The voxel at `position`, read at index `x * 1024 + y * 32 + z`.
    pub open spec fn voxel_at(self, index: int) -> VoxelType {
        voxel_of(self.voxels@[index])
    }

    pub fn get(&self, position: UVec3) -> (r: VoxelType)
        requires
            position.linear_index() < 32768,
        ensures
            r == self.voxel_at(position.linear_index()),
    {
        VoxelType::from(
            self.voxels[position.x as usize * 1024 + position.y as usize * 32
                + position.z as usize],
        )
    }
}


/// The chunks around a chunk: `refs[9 * a + 3 * b + c]` is the chunk at
/// offset `(a - 1, b - 1, c - 1)` from the centre chunk `refs[13]`.
pub struct ChunkRefs {
    pub refs: [Arc<Chunk>; 27],
}

/// For a coordinate relative to the centre chunk's origin: the offset, plus
/// one, of the chunk that holds it.
pub open spec fn block_coord(c: int) -> int {
    (c + 32) / 32
}

/// For a coordinate relative to the centre chunk's origin: its place inside
/// the chunk that holds it.
pub open spec fn local_coord(c: int) -> int {
    (c + 32) % 32
}

/// The entry of `refs` that a lookup of `(x, y, z)` reads.
pub open spec fn neighbour_index(x: int, y: int, z: int) -> int {
    block_coord(x) * 9 + block_coord(y) * 3 + block_coord(z)
}

/// The voxel index that a lookup of `(x, y, z)` reads in that chunk.
pub open spec fn local_index(x: int, y: int, z: int) -> int {
    local_coord(x) * 1024 + local_coord(y) * 32 + local_coord(z)
}

/// A lookup of `(x, y, z)` reads an entry of `refs`; on every other position
/// `ChunkRefs::get` would fail.
pub open spec fn lookup_ok(x: int, y: int, z: int) -> bool {
    &&& -32 <= x
    &&& -32 <= y
    &&& -32 <= z
    &&& neighbour_index(x, y, z) < 27
}

/// A triple of integers, as a relative voxel position.
pub type Triple = (int, int, int);

pub open spec fn triple_add(a: Triple, b: Triple) -> Triple {
    (a.0 + b.0, a.1 + b.1, a.2 + b.2)
}

pub open spec fn triple_neg(a: Triple) -> Triple {
    (-a.0, -a.1, -a.2)
}

/// For each face direction (0: +x, 1: -x, 2: +y, 3: -y, 4: +z, any other:
/// -z): the step to the neighbour in front of the face, and the two
/// directions along the face.
pub open spec fn ao_frame(axis: int) -> (Triple, Triple, Triple) {
    if axis == 0 {
        ((1, 0, 0), (0, 1, 0), (0, 0, 1))
    } else if axis == 1 {
        ((-1, 0, 0), (0, 0, 1), (0, 1, 0))
    } else if axis == 2 {
        ((0, 1, 0), (0, 0, 1), (1, 0, 0))
    } else if axis == 3 {
        ((0, -1, 0), (1, 0, 0), (0, 0, 1))
    } else if axis == 4 {
        ((0, 0, 1), (1, 0, 0), (0, 1, 0))
    } else {
        ((0, 0, -1), (0, 1, 0), (1, 0, 0))
    }
}

/// Direction `d` taken backwards for side 0 and forwards for side 1.
pub open spec fn side(s: int, d: Triple) -> Triple {
    if s == 0 {
        triple_neg(d)
    } else {
        d
    }
}

/// The three voxels that shade corner `(i, j)` of the face of `pos` towards
/// `axis`: the one beside it along the first direction, the one beside it
/// along the second, and the one diagonal to both, all in front of the face.
pub open spec fn ao_neighbours(pos: UVec3, axis: int, i: int, j: int) -> (Triple, Triple, Triple) {
    let (a, xo, zo) = ao_frame(axis);
    let front = triple_add((pos.x as int, pos.y as int, pos.z as int), a);
    let sx = side(i, xo);
    let sz = side(j, zo);
    (triple_add(front, sx), triple_add(front, sz), triple_add(triple_add(front, sx), sz))
}

/// The shade of a face corner: 0 when both side neighbours are solid,
/// otherwise 3 minus the number of solid neighbours.
pub open spec fn ao_value(x_solid: bool, z_solid: bool, xz_solid: bool) -> u32 {
    if x_solid && z_solid {
        0
    } else {
        (3 - ((if x_solid { 1int } else { 0 }) + (if z_solid { 1int } else { 0 }) + (if xz_solid {
            1int
        } else {
            0
        }))) as u32
    }
}

/// All lookups of `calculate_ao(pos, axis)` are possible: the position
/// fits in `i32`, and every voxel that shades a corner can be looked up.
pub open spec fn ao_ok(pos: UVec3, axis: int) -> bool {
    &&& pos.x <= i32::MAX
    &&& pos.y <= i32::MAX
    &&& pos.z <= i32::MAX
    &&& ao_lookups_ok(pos, axis)
}

/// Every voxel that shades a corner of the face can be looked up.
#[verifier::opaque]
pub open spec fn ao_lookups_ok(pos: UVec3, axis: int) -> bool {
    forall|i: int, j: int|
        0 <= i < 2 && 0 <= j < 2 ==> {
            let (p, q, r) = #[trigger] ao_neighbours(pos, axis, i, j);
            &&& lookup_ok(p.0, p.1, p.2)
            &&& lookup_ok(q.0, q.1, q.2)
            &&& lookup_ok(r.0, r.1, r.2)
        }
}

impl ChunkRefs {
    /// The shade of one face corner, from the voxel `front` in front of the
    /// face and the two directions `x` and `z` towards the corner.
    fn corner_shade(&self, front: IVec3, x: IVec3, z: IVec3) -> (r: u32)
        requires
            front.sum_fits(x),
            lookup_ok(front.x + x.x, front.y + x.y, front.z + x.z),
            lookup_ok(front.x + z.x, front.y + z.y, front.z + z.z),
            lookup_ok(front.x + x.x + z.x, front.y + x.y + z.y, front.z + x.z + z.z),
        ensures
            r == ao_value(
                self.voxel(triple_add(front.triple(), x.triple())).solid(),
                self.voxel(triple_add(front.triple(), z.triple())).solid(),
                self.voxel(triple_add(triple_add(front.triple(), x.triple()), z.triple())).solid(),
            ),
    {
        proof {
            lemma_lookup_bounds((front.x + x.x, front.y + x.y, front.z + x.z));
            lemma_lookup_bounds((front.x + z.x, front.y + z.y, front.z + z.z));
            lemma_lookup_bounds((front.x + x.x + z.x, front.y + x.y + z.y, front.z + x.z + z.z));
        }
        let x_solid = self.get(front.plus(x)).is_solid();
        let z_solid = self.get(front.plus(z)).is_solid();
        let xz_solid = self.get(front.plus(x).plus(z)).is_solid();
        if x_solid && z_solid {
            0
        } else {
            3 - (x_solid as u32 + z_solid as u32 + xz_solid as u32)
        }
    }

    /// The voxel that a lookup of `(x, y, z)` reads.
    pub open spec fn voxel(self, t: Triple) -> VoxelType {
        voxel_of(self.refs@[neighbour_index(t.0, t.1, t.2)].voxels@[local_index(t.0, t.1, t.2)])
    }

    /// The shade of corner `(i, j)` of the face of `pos` towards `axis`.
    #[verifier::opaque]
    pub open spec fn corner_ao(self, pos: UVec3, axis: int, i: int, j: int) -> u32 {
        let (p, q, r) = ao_neighbours(pos, axis, i, j);
        ao_value(self.voxel(p).solid(), self.voxel(q).solid(), self.voxel(r).solid())
    }

    /// The four corner shades packed two bits each; corner `(i, j)` takes
    /// bits `2 * (2 * j + i)` and `2 * (2 * j + i) + 1`.
    pub open spec fn ao_packed(self, pos: UVec3, axis: int) -> u32 {
        self.corner_ao(pos, axis, 0, 0) | (self.corner_ao(pos, axis, 1, 0) << 2u32) | (
        self.corner_ao(pos, axis, 0, 1) << 4u32) | (self.corner_ao(pos, axis, 1, 1) << 6u32)
    }

    fn get_from_chunk(&self, position: UVec3, chunk_index: u32) -> (r: VoxelType)
        requires
            chunk_index < 27,
            position.linear_index() < 32768,
        ensures
            r == voxel_of(self.refs@[chunk_index as int].voxels@[position.linear_index()]),
    {
        self.refs[chunk_index as usize].get(position)
    }

    /// The voxel at `position`, relative to the origin of the centre chunk.
    pub fn get(&self, position: IVec3) -> (r: VoxelType)
        requires
            lookup_ok(position.x as int, position.y as int, position.z as int),
        ensures
            r == self.voxel(position.triple()),
    {
        let x = (position.x + 32) as u32;
        let y = (position.y + 32) as u32;
        let z = (position.z + 32) as u32;
        let x_chunk = x >> 5;
        let y_chunk = y >> 5;
        let z_chunk = z >> 5;
        let x = x & 31;
        let y = y & 31;
        let z = z & 31;
        proof {
            let ghost xx = (position.x + 32) as u32;
            let ghost yy = (position.y + 32) as u32;
            let ghost zz = (position.z + 32) as u32;
            assert(xx >> 5u32 == xx / 32 && xx & 31u32 == xx % 32) by (bit_vector);
            assert(yy >> 5u32 == yy / 32 && yy & 31u32 == yy % 32) by (bit_vector);
            assert(zz >> 5u32 == zz / 32 && zz & 31u32 == zz % 32) by (bit_vector);
        }
        let chunk_index = x_chunk * 9 + y_chunk * 3 + z_chunk;
        self.get_from_chunk(UVec3::new(x, y, z), chunk_index)
    }

    /// The voxel at `position` of the centre chunk.
    pub fn get_only_self(&self, position: UVec3) -> (r: VoxelType)
        requires
            position.linear_index() < 32768,
        ensures
            r == voxel_of(self.refs@[13].voxels@[position.linear_index()]),
    {
        self.get_from_chunk(position, 13)
    }

    /// The ambient occlusion of the face of the voxel at `pos` (in the centre
    /// chunk) that looks towards `axis`: the shade of each of its four
    /// corners, packed two bits each.
    #[verifier::spinoff_prover]
    #[verifier::rlimit(30)]
    pub fn calculate_ao(&self, pos: UVec3, axis: usize) -> (r: u32)
        requires
            ao_ok(pos, axis as int),
        ensures
            r == self.ao_packed(pos, axis as int),
            r < 256,
    {
        let p = IVec3::new(pos.x as i32, pos.y as i32, pos.z as i32);
        let (axis_offset, x_offset, z_offset) = match axis {
            0 => (IVec3::new(1, 0, 0), IVec3::new(0, 1, 0), IVec3::new(0, 0, 1)),
            1 => (IVec3::new(-1, 0, 0), IVec3::new(0, 0, 1), IVec3::new(0, 1, 0)),
            2 => (IVec3::new(0, 1, 0), IVec3::new(0, 0, 1), IVec3::new(1, 0, 0)),
            3 => (IVec3::new(0, -1, 0), IVec3::new(1, 0, 0), IVec3::new(0, 0, 1)),
            4 => (IVec3::new(0, 0, 1), IVec3::new(1, 0, 0), IVec3::new(0, 1, 0)),
            _ => (IVec3::new(0, 0, -1), IVec3::new(0, 1, 0), IVec3::new(1, 0, 0)),
        };
        let ghost frame = ao_frame(axis as int);
        assert(axis_offset.triple() == frame.0 && x_offset.triple() == frame.1
            && z_offset.triple() == frame.2);
        let mut ao_packed = 0u32;
        for i in 0..2u32
            invariant
                ao_ok(pos, axis as int),
                p.triple() == (pos.x as int, pos.y as int, pos.z as int),
                axis_offset.triple() == frame.0,
                x_offset.triple() == frame.1,
                z_offset.triple() == frame.2,
                frame == ao_frame(axis as int),
                ao_packed == self.ao_partial(pos, axis as int, 2 * i),
        {
            for j in 0..2u32
                invariant
                    0 <= i < 2,
                    ao_ok(pos, axis as int),
                    p.triple() == (pos.x as int, pos.y as int, pos.z as int),
                    axis_offset.triple() == frame.0,
                    x_offset.triple() == frame.1,
                    z_offset.triple() == frame.2,
                    frame == ao_frame(axis as int),
                    ao_packed == self.ao_partial(pos, axis as int, 2 * i + j),
            {
                let ghost front_t = triple_add((pos.x as int, pos.y as int, pos.z as int), frame.0);
                let ghost x_t = side(i as int, frame.1);
                let ghost z_t = side(j as int, frame.2);
                proof {
                    lemma_ao_corner_ok(pos, axis as int, i as int, j as int);
                    lemma_corner_ao_is(*self, pos, axis as int, i as int, j as int, front_t, x_t, z_t);
                    lemma_lookup_bounds(triple_add(front_t, x_t));
                    lemma_ao_partial_step(*self, pos, axis as int, i as int, j as int);
                }
                let x = if i == 0 {
                    x_offset.negated()
                } else {
                    x_offset
                };
                let z = if j == 0 {
                    z_offset.negated()
                } else {
                    z_offset
                };
                let front = p.plus(axis_offset);
                assert(front.triple() == front_t);
                assert(x.triple() == x_t);
                assert(z.triple() == z_t);
                let ao = self.corner_shade(front, x, z);
                ao_packed |= ao << (2 * (j * 2 + i));
            }
        }
        proof {
            lemma_ao_partial_step(*self, pos, axis as int, 0, 0);
            lemma_ao_partial_step(*self, pos, axis as int, 0, 1);
            lemma_ao_partial_step(*self, pos, axis as int, 1, 0);
            lemma_ao_partial_step(*self, pos, axis as int, 1, 1);
            reveal(ChunkRefs::corner_ao);
            let c00 = self.corner_ao(pos, axis as int, 0, 0);
            let c01 = self.corner_ao(pos, axis as int, 0, 1);
            let c10 = self.corner_ao(pos, axis as int, 1, 0);
            let c11 = self.corner_ao(pos, axis as int, 1, 1);
            assert(c00 <= 3 && c01 <= 3 && c10 <= 3 && c11 <= 3);
            assert(self.ao_partial(pos, axis as int, 4) == (((0u32 | (c00 << 0u32)) | (c01 << 4u32))
                | (c10 << 2u32)) | (c11 << 6u32));
            assert((((0u32 | (c00 << 0u32)) | (c01 << 4u32)) | (c10 << 2u32)) | (c11 << 6u32) == c00
                | (c10 << 2u32) | (c01 << 4u32) | (c11 << 6u32)) by (bit_vector);
            assert(c00 <= 3 && c01 <= 3 && c10 <= 3 && c11 <= 3 ==> c00 | (c10 << 2u32) | (c01
                << 4u32) | (c11 << 6u32) < 256) by (bit_vector);
        }
        ao_packed
    }

    /// The first `n` corners in the order `calculate_ao` visits them
    /// (`(0, 0)`, `(0, 1)`, `(1, 0)`, `(1, 1)`), packed.
    pub open spec fn ao_partial(self, pos: UVec3, axis: int, n: int) -> u32
        decreases n,
    {
        if n <= 0 {
            0
        } else {
            let i = (n - 1) / 2;
            let j = (n - 1) % 2;
            self.ao_partial(pos, axis, n - 1) | (self.corner_ao(pos, axis, i, j) << ((2 * (j * 2
                + i)) as u32))
        }
    }
}


/// The packed ambient occlusion of a face fits in 8 bits.
pub proof fn lemma_ao_packed_bound(refs: ChunkRefs, pos: UVec3, axis: int)
    ensures
        refs.ao_packed(pos, axis) < 256,
{
    reveal(ChunkRefs::corner_ao);
    let c00 = refs.corner_ao(pos, axis, 0, 0);
    let c01 = refs.corner_ao(pos, axis, 0, 1);
    let c10 = refs.corner_ao(pos, axis, 1, 0);
    let c11 = refs.corner_ao(pos, axis, 1, 1);
    assert(c00 <= 3 && c01 <= 3 && c10 <= 3 && c11 <= 3);
    assert(c00 <= 3 && c01 <= 3 && c10 <= 3 && c11 <= 3 ==> c00 | (c10 << 2u32) | (c01 << 4u32) | (
    c11 << 6u32) < 256) by (bit_vector);
}

proof fn lemma_ao_value_monotone(x1: bool, z1: bool, xz1: bool, x2: bool, z2: bool, xz2: bool)
    requires
        x1 ==> x2,
        z1 ==> z2,
        xz1 ==> xz2,
    ensures
        ao_value(x2, z2, xz2) <= ao_value(x1, z1, xz1),
{
}

proof fn lemma_ao_fields(c00: u32, c10: u32, c01: u32, c11: u32)
    by (bit_vector)
    requires
        c00 <= 3,
        c10 <= 3,
        c01 <= 3,
        c11 <= 3,
    ensures
        ((c00 | (c10 << 2u32) | (c01 << 4u32) | (c11 << 6u32)) >> 0u32) & 3 == c00,
        ((c00 | (c10 << 2u32) | (c01 << 4u32) | (c11 << 6u32)) >> 2u32) & 3 == c10,
        ((c00 | (c10 << 2u32) | (c01 << 4u32) | (c11 << 6u32)) >> 4u32) & 3 == c01,
        ((c00 | (c10 << 2u32) | (c01 << 4u32) | (c11 << 6u32)) >> 6u32) & 3 == c11,
{
}

/// More solid voxels around a face never lighten it: when every voxel that
/// is solid in `refs1` is solid in `refs2`, each corner of the face is
/// shaded at least as deeply in `refs2`, and so is each two-bit field of
/// the packed value.
pub proof fn lemma_ao_monotone(refs1: ChunkRefs, refs2: ChunkRefs, pos: UVec3, axis: int)
    requires
        ao_ok(pos, axis),
        forall|t: Triple|
            lookup_ok(t.0, t.1, t.2) && #[trigger] refs1.voxel(t).solid() ==> refs2.voxel(t).solid(),
    ensures
        forall|i: int, j: int|
            0 <= i < 2 && 0 <= j < 2 ==> #[trigger] refs2.corner_ao(pos, axis, i, j) <= refs1.corner_ao(
                pos,
                axis,
                i,
                j,
            ),
        forall|k: u32|
            k < 4 ==> #[trigger] ((refs2.ao_packed(pos, axis) >> ((2 * k) as u32)) & 3) <= ((
            refs1.ao_packed(pos, axis) >> ((2 * k) as u32)) & 3),
{
    reveal(ChunkRefs::corner_ao);
    assert forall|i: int, j: int| 0 <= i < 2 && 0 <= j < 2 implies #[trigger] refs2.corner_ao(
        pos,
        axis,
        i,
        j,
    ) <= refs1.corner_ao(pos, axis, i, j) by {
        lemma_ao_corner_ok(pos, axis, i, j);
        let (p, q, r) = ao_neighbours(pos, axis, i, j);
        lemma_ao_value_monotone(
            refs1.voxel(p).solid(),
            refs1.voxel(q).solid(),
            refs1.voxel(r).solid(),
            refs2.voxel(p).solid(),
            refs2.voxel(q).solid(),
            refs2.voxel(r).solid(),
        );
    }
    lemma_ao_packed_bound(refs1, pos, axis);
    lemma_ao_packed_bound(refs2, pos, axis);
    let a = refs1.corner_ao(pos, axis, 0, 0);
    let b = refs1.corner_ao(pos, axis, 1, 0);
    let c = refs1.corner_ao(pos, axis, 0, 1);
    let d = refs1.corner_ao(pos, axis, 1, 1);
    let a2 = refs2.corner_ao(pos, axis, 0, 0);
    let b2 = refs2.corner_ao(pos, axis, 1, 0);
    let c2 = refs2.corner_ao(pos, axis, 0, 1);
    let d2 = refs2.corner_ao(pos, axis, 1, 1);
    assert(a <= 3 && b <= 3 && c <= 3 && d <= 3);
    assert(a2 <= 3 && b2 <= 3 && c2 <= 3 && d2 <= 3);
    lemma_ao_fields(a, b, c, d);
    lemma_ao_fields(a2, b2, c2, d2);
    assert(a2 <= a && b2 <= b && c2 <= c && d2 <= d);
    assert forall|k: u32| k < 4 implies #[trigger] ((refs2.ao_packed(pos, axis) >> ((2 * k) as u32))
        & 3) <= ((refs1.ao_packed(pos, axis) >> ((2 * k) as u32)) & 3) by {
        if k == 0 {
            assert(((2 * k) as u32) == 0u32);
        } else if k == 1 {
            assert(((2 * k) as u32) == 2u32);
        } else if k == 2 {
            assert(((2 * k) as u32) == 4u32);
        } else {
            assert(((2 * k) as u32) == 6u32);
        }
    }
}

/// Each corner of a face is shaded by the three voxels in front of it: the
/// two beside the corner and the one diagonal to it. The corner's two-bit
/// field is 0 when both side voxels are solid, and otherwise 3 minus the
/// number of solid voxels among the three; a solid diagonal voxel alone
/// makes it 2.
pub proof fn lemma_ao_corner_rule(refs: ChunkRefs, pos: UVec3, axis: int, i: int, j: int)
    requires
        0 <= i < 2,
        0 <= j < 2,
    ensures
        ({
            let (p, q, d) = ao_neighbours(pos, axis, i, j);
            let side1 = refs.voxel(p).solid();
            let side2 = refs.voxel(q).solid();
            let diagonal = refs.voxel(d).solid();
            let field = (refs.ao_packed(pos, axis) >> ((2 * (2 * j + i)) as u32)) & 3;
            &&& side1 && side2 ==> field == 0
            &&& !(side1 && side2) ==> field == 3 - ((if side1 { 1int } else { 0int }) + (if side2 {
                1int
            } else {
                0int
            }) + (if diagonal { 1int } else { 0int }))
        }),
{
    reveal(ChunkRefs::corner_ao);
    let a = refs.corner_ao(pos, axis, 0, 0);
    let b = refs.corner_ao(pos, axis, 1, 0);
    let c = refs.corner_ao(pos, axis, 0, 1);
    let d = refs.corner_ao(pos, axis, 1, 1);
    assert(a <= 3 && b <= 3 && c <= 3 && d <= 3);
    lemma_ao_fields(a, b, c, d);
    if i == 0 && j == 0 {
        assert(((2 * (2 * j + i)) as u32) == 0u32);
    } else if i == 1 && j == 0 {
        assert(((2 * (2 * j + i)) as u32) == 2u32);
    } else if i == 0 && j == 1 {
        assert(((2 * (2 * j + i)) as u32) == 4u32);
    } else {
        assert(((2 * (2 * j + i)) as u32) == 6u32);
    }
}

/// The lookups for corner `(i, j)` are possible when all lookups are.
proof fn lemma_ao_corner_ok(pos: UVec3, axis: int, i: int, j: int)
    requires
        ao_ok(pos, axis),
        0 <= i < 2,
        0 <= j < 2,
    ensures
        ({
            let (p, q, r) = ao_neighbours(pos, axis, i, j);
            &&& lookup_ok(p.0, p.1, p.2)
            &&& lookup_ok(q.0, q.1, q.2)
            &&& lookup_ok(r.0, r.1, r.2)
        }),
{
    reveal(ao_lookups_ok);
    let nb = ao_neighbours(pos, axis, i, j);
}

/// The shade that `corner_shade` computes for corner `(i, j)` is its
/// `corner_ao`.
proof fn lemma_corner_ao_is(
    refs: ChunkRefs,
    pos: UVec3,
    axis: int,
    i: int,
    j: int,
    front: Triple,
    x: Triple,
    z: Triple,
)
    requires
        front == triple_add((pos.x as int, pos.y as int, pos.z as int), ao_frame(axis).0),
        x == side(i, ao_frame(axis).1),
        z == side(j, ao_frame(axis).2),
    ensures
        refs.corner_ao(pos, axis, i, j) == ao_value(
            refs.voxel(triple_add(front, x)).solid(),
            refs.voxel(triple_add(front, z)).solid(),
            refs.voxel(triple_add(triple_add(front, x), z)).solid(),
        ),
        ao_neighbours(pos, axis, i, j) == (triple_add(front, x), triple_add(front, z), triple_add(
            triple_add(front, x),
            z,
        )),
{
    reveal(ChunkRefs::corner_ao);
}

/// One step of packing the corners in visiting order.
proof fn lemma_ao_partial_step(refs: ChunkRefs, pos: UVec3, axis: int, i: int, j: int)
    requires
        0 <= i < 2,
        0 <= j < 2,
    ensures
        refs.ao_partial(pos, axis, 2 * i + j + 1) == refs.ao_partial(pos, axis, 2 * i + j) | (
        refs.corner_ao(pos, axis, i, j) << ((2 * (j * 2 + i)) as u32)),
{
    let n = 2 * i + j + 1;
    assert((n - 1) / 2 == i && (n - 1) % 2 == j);
}

/// A position that can be looked up lies within a few chunks of the centre.
proof fn lemma_lookup_bounds(t: Triple)
    requires
        lookup_ok(t.0, t.1, t.2),
    ensures
        -32 <= t.0 < 64 + 32 * 18,
        -32 <= t.1 < 64 + 32 * 6,
        -32 <= t.2 < 64 + 32 * 24,
{
}

/// Inside the 3x3x3 block of chunks around the centre chunk (coordinates
/// `-32 .. 64` relative to its origin) every position can be looked up, in
/// the chunk `chunk + 1` steps from the corner of the block and at the
/// position inside that chunk; the centre chunk's own voxels are read from
/// `refs[13]` at their own index.
pub proof fn lemma_neighbourhood_lookup(x: int, y: int, z: int)
    requires
        -32 <= x < 64,
        -32 <= y < 64,
        -32 <= z < 64,
    ensures
        lookup_ok(x, y, z),
        neighbour_index(x, y, z) == (x / 32 + 1) * 9 + (y / 32 + 1) * 3 + (z / 32 + 1),
        local_index(x, y, z) == (x % 32) * 1024 + (y % 32) * 32 + z % 32,
        (0 <= x < 32 && 0 <= y < 32 && 0 <= z < 32) ==> neighbour_index(x, y, z) == 13
            && local_index(x, y, z) == x * 1024 + y * 32 + z,
{
}


/// Every face of every voxel of the centre chunk has a computable ambient
/// occlusion.
pub proof fn lemma_ao_ok_in_chunk(pos: UVec3, axis: int)
    requires
        pos.in_chunk(),
    ensures
        ao_ok(pos, axis),
{
    reveal(ao_lookups_ok);
    assert forall|i: int, j: int| 0 <= i < 2 && 0 <= j < 2 implies {
        let (p, q, r) = #[trigger] ao_neighbours(pos, axis, i, j);
        &&& lookup_ok(p.0, p.1, p.2)
        &&& lookup_ok(q.0, q.1, q.2)
        &&& lookup_ok(r.0, r.1, r.2)
    } by {
        let (p, q, r) = ao_neighbours(pos, axis, i, j);
        lemma_neighbourhood_lookup(p.0, p.1, p.2);
        lemma_neighbourhood_lookup(q.0, q.1, q.2);
        lemma_neighbourhood_lookup(r.0, r.1, r.2);
    }
}

} // verus!
