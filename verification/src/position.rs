//! Integer positions: voxel positions in the world, and positions inside a
//! chunk together with their linear index in the chunk's voxel array.
use vstd::prelude::*;

verus! {

/// A signed integer position (of a voxel, or of a chunk in the chunk grid).
#[derive(Clone, Copy, Debug, PartialEq, Eq, Hash, Structural)]
pub struct IVec3 {
    pub x: i32,
    pub y: i32,
    pub z: i32,
}

/// An unsigned integer position, mostly a voxel inside a chunk.
#[derive(Clone, Copy, Debug, PartialEq, Eq, Hash, Structural)]
pub struct UVec3 {
    pub x: u32,
    pub y: u32,
    pub z: u32,
}

impl IVec3 {
    pub fn new(x: i32, y: i32, z: i32) -> (r: IVec3)
        ensures
            r == (IVec3 { x, y, z }),
    {
        IVec3 { x, y, z }
    }

    /// The position as a triple of integers.
    pub open spec fn triple(self) -> (int, int, int) {
        (self.x as int, self.y as int, self.z as int)
    }

    /// The coordinate sum `self + other`, when it fits in `i32`.
    pub open spec fn sum_fits(self, other: IVec3) -> bool {
        &&& i32::MIN <= self.x + other.x <= i32::MAX
        &&& i32::MIN <= self.y + other.y <= i32::MAX
        &&& i32::MIN <= self.z + other.z <= i32::MAX
    }

    /// Coordinate-wise sum.
    pub fn plus(self, other: IVec3) -> (r: IVec3)
        requires
            self.sum_fits(other),
        ensures
            r.x == self.x + other.x,
            r.y == self.y + other.y,
            r.z == self.z + other.z,
    {
        IVec3 { x: self.x + other.x, y: self.y + other.y, z: self.z + other.z }
    }

    /// Coordinate-wise negation.
    pub fn negated(self) -> (r: IVec3)
        requires
            self.x > i32::MIN,
            self.y > i32::MIN,
            self.z > i32::MIN,
        ensures
            r.x == -self.x,
            r.y == -self.y,
            r.z == -self.z,
    {
        IVec3 { x: -self.x, y: -self.y, z: -self.z }
    }
}

impl UVec3 {
    pub fn new(x: u32, y: u32, z: u32) -> (r: UVec3)
        ensures
            r == (UVec3 { x, y, z }),
    {
        UVec3 { x, y, z }
    }

    /// The position lies inside one chunk.
    pub open spec fn in_chunk(self) -> bool {
        self.x < 32 && self.y < 32 && self.z < 32
    }
}

/// Splitting a world voxel position into the chunk that holds it and the
/// position inside that chunk.
pub trait IVec3Ext {
    /// The chunk that holds this position: each coordinate divided by the
    /// chunk size, rounded down.
    spec fn chunk_of(&self) -> (int, int, int);

    /// The position inside its chunk: each coordinate modulo the chunk size,
    /// in `0 .. 32`.
    spec fn local_of(&self) -> (int, int, int);

    fn to_chunk_pos(&self) -> (r: IVec3)
        ensures
            r.triple() == self.chunk_of(),
    ;

    fn to_local_pos(&self) -> (r: UVec3)
        ensures
            (r.x as int, r.y as int, r.z as int) == self.local_of(),
    ;
}

/// Euclidean quotient by the chunk size.
fn div_chunk(v: i32) -> (r: i32)
    ensures
        r == v as int / 32,
{
    match v.checked_div_euclid(32) {
        Some(q) => q,
        None => 0,
    }
}

/// Euclidean remainder by the chunk size.
fn rem_chunk(v: i32) -> (r: u32)
    ensures
        r == v as int % 32,
{
    match v.checked_rem_euclid(32) {
        Some(m) => m as u32,
        None => 0,
    }
}

impl IVec3Ext for IVec3 {
    open spec fn chunk_of(&self) -> (int, int, int) {
        (self.x as int / 32, self.y as int / 32, self.z as int / 32)
    }

    open spec fn local_of(&self) -> (int, int, int) {
        (self.x as int % 32, self.y as int % 32, self.z as int % 32)
    }

    fn to_chunk_pos(&self) -> (r: IVec3) {
        IVec3::new(div_chunk(self.x), div_chunk(self.y), div_chunk(self.z))
    }

    fn to_local_pos(&self) -> (r: UVec3) {
        UVec3::new(rem_chunk(self.x), rem_chunk(self.y), rem_chunk(self.z))
    }
}

/// The linear index of a voxel inside a chunk: `x * 1024 + y * 32 + z`.
pub trait UVec3Ext: Sized {
    /// `x * 1024 + y * 32 + z`, over the integers.
    spec fn linear_index(&self) -> int;

    /// The position that `from_index` gives for `index`.
    spec fn at_index(index: u32) -> Self;

    fn to_index(&self) -> (r: u32)
        requires
            self.linear_index() <= u32::MAX,
        ensures
            r == self.linear_index(),
    ;

    fn from_index(index: u32) -> (r: Self)
        ensures
            r == Self::at_index(index),
    ;
}

impl UVec3Ext for UVec3 {
    open spec fn linear_index(&self) -> int {
        self.x * 1024 + self.y * 32 + self.z
    }

    open spec fn at_index(index: u32) -> UVec3 {
        UVec3 { x: index / 1024, y: (index % 1024) / 32, z: index % 32 }
    }

    fn to_index(&self) -> (r: u32) {
        self.x * 1024 + self.y * 32 + self.z
    }

    fn from_index(index: u32) -> (r: UVec3) {
        UVec3 { x: index / 1024, y: (index % 1024) / 32, z: index % 32 }
    }
}

/// Splitting a linear index into a position and back gives the index again,
/// for every index.
pub proof fn lemma_index_round_trip(index: u32)
    ensures
        UVec3::at_index(index).linear_index() == index,
        UVec3::at_index(index).y < 32,
        UVec3::at_index(index).z < 32,
{
    let i = index as int;
    assert(i == (i / 1024) * 1024 + ((i % 1024) / 32) * 32 + i % 32) by (nonlinear_arith);
    assert((i % 1024) / 32 < 32) by (nonlinear_arith);
}

/// A position inside a chunk has an index below 32768, and the index gives
/// the position back.
pub proof fn lemma_position_round_trip(p: UVec3)
    requires
        p.in_chunk(),
    ensures
        0 <= p.linear_index() < 32768,
        UVec3::at_index(p.linear_index() as u32) == p,
{
    let i = p.linear_index();
    assert(0 <= i < 32768) by (nonlinear_arith)
        requires
            i == p.x * 1024 + p.y * 32 + p.z,
            p.x < 32,
            p.y < 32,
            p.z < 32,
    ;
    assert(i / 1024 == p.x && (i % 1024) / 32 == p.y && i % 32 == p.z) by (nonlinear_arith)
        requires
            i == p.x * 1024 + p.y * 32 + p.z,
            p.x < 32,
            p.y < 32,
            p.z < 32,
    ;
}

/// Splitting a position into its chunk and its place in the chunk loses
/// nothing: `chunk * 32 + local` gives the position back, and the local part
/// lies inside a chunk.
pub proof fn lemma_chunk_split(p: IVec3)
    ensures
        p.chunk_of().0 * 32 + p.local_of().0 == p.x,
        p.chunk_of().1 * 32 + p.local_of().1 == p.y,
        p.chunk_of().2 * 32 + p.local_of().2 == p.z,
        0 <= p.local_of().0 < 32,
        0 <= p.local_of().1 < 32,
        0 <= p.local_of().2 < 32,
{
    assert(p.x == (p.x / 32) * 32 + p.x % 32) by (nonlinear_arith);
    assert(p.y == (p.y / 32) * 32 + p.y % 32) by (nonlinear_arith);
    assert(p.z == (p.z / 32) * 32 + p.z % 32) by (nonlinear_arith);
}

} // verus!
