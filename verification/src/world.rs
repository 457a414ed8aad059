//! The bookkeeping of the world: which chunks are loaded, which are on their
//! way (from the chunk store or from terrain generation), and what to ask of
//! the store and the generator as the centre of the world moves.
use std::sync::Arc;

use vstd::prelude::*;

use crate::chunk::{
    lemma_neighbourhood_lookup, terrain_at, voxel_of, Chunk, ChunkRefs, Triple, VoxelType,
};
use crate::collections::{
    chunk_map_contents, is_within_distance, position_set_contents, within_distance, ChunkKey,
    ChunkMap, PositionSet,
};
use crate::constants::CHUNK_SIZE3_U;
use crate::io::{IORequest, IOResponse};
use crate::position::{IVec3, IVec3Ext, UVec3};

verus! {

/// A request to the terrain generator: the chunks of column `(x, z)` at
/// heights `ys`.
pub enum WorldRequest {
    GenerateChunks { x: i32, z: i32, ys: Vec<i32> },
}

/// An answer of the terrain generator.
pub enum WorldResponse {
    ChunksGenerated { chunks: Vec<(IVec3, Arc<Chunk>)> },
}

/// The key under which a chunk position is stored.
pub open spec fn key(p: IVec3) -> ChunkKey {
    (p.x, p.y, p.z)
}

/// `Arc::clone`: a second handle to the same chunk.
#[verifier::external_body]
fn share(chunk: &Arc<Chunk>) -> (r: Arc<Chunk>)
    ensures
        r == *chunk,
{
    Arc::clone(chunk)
}

/// `<[T; 27]>::try_from(Vec<T>)`: the vector as an array, when it holds
/// exactly 27 chunks.
#[verifier::external_body]
fn neighbours_array(refs: Vec<Arc<Chunk>>) -> (r: Option<[Arc<Chunk>; 27]>)
    ensures
        match r {
            Some(a) => refs.len() == 27 && a@ == refs@,
            None => refs.len() != 27,
        },
{
    refs.try_into().ok()
}

/// The chunks of terrain column `(x, z)` at chunk heights `ys`, in that
/// order: the ground height of the column at `(lx, lz)` is
/// `heights[lx * 32 + lz]`, and its stone starts at
/// `dirt_levels[lx * 32 + lz]`.
pub fn generate_chunks(
    x: i32,
    z: i32,
    ys: &Vec<i32>,
    heights: &[i32; 1024],
    dirt_levels: &[i32; 1024],
) -> (r: Vec<(IVec3, Arc<Chunk>)>)
    requires
        forall|i: int|
            0 <= i < ys.len() ==> i32::MIN <= #[trigger] ys@[i] * 32 && ys@[i] * 32 + 31 <= i32::MAX,
    ensures
        r.len() == ys.len(),
        forall|i: int|
            0 <= i < r.len() ==> (#[trigger] r@[i]).0 == (IVec3 { x, y: ys@[i], z }) && forall|j: int|
                0 <= j < 32768 ==> #[trigger] r@[i].1.voxels@[j] == terrain_at(
                    r@[i].0,
                    heights@,
                    dirt_levels@,
                    j,
                ),
{
    let mut generated: Vec<(IVec3, Arc<Chunk>)> = Vec::new();
    let mut i: usize = 0;
    while i < ys.len()
        invariant
            i <= ys.len(),
            generated.len() == i,
            forall|k: int|
                0 <= k < ys.len() ==> i32::MIN <= #[trigger] ys@[k] * 32 && ys@[k] * 32 + 31
                    <= i32::MAX,
            forall|k: int|
                0 <= k < i ==> (#[trigger] generated@[k]).0 == (IVec3 { x, y: ys@[k], z }) && forall|
                    j: int,
                |
                    0 <= j < 32768 ==> #[trigger] generated@[k].1.voxels@[j] == terrain_at(
                        generated@[k].0,
                        heights@,
                        dirt_levels@,
                        j,
                    ),
        decreases ys.len() - i,
    {
        let pos = IVec3::new(x, ys[i], z);
        let chunk = Chunk::new_terrain(pos, heights, dirt_levels);
        generated.push((pos, Arc::new(chunk)));
        i += 1;
    }
    generated
}

/// The loaded chunks, the positions waiting for a chunk, and among those
/// the positions asked of the chunk store.
pub struct WorldState {
    chunks: ChunkMap,
    render_distance: i32,
    pending_chunks: PositionSet,
    loading_chunks: PositionSet,
}

impl WorldState {
    /// How many chunks around the centre stay loaded.
    pub closed spec fn distance(&self) -> i32 {
        self.render_distance
    }

    /// How many chunks around the centre stay loaded.
    pub fn render_distance(&self) -> (r: i32)
        ensures
            r == self.distance(),
    {
        self.render_distance
    }

    /// The loaded chunks, by position.
    pub closed spec fn loaded(&self) -> Map<ChunkKey, Chunk> {
        chunk_map_contents(self.chunks)
    }

    /// The positions waiting for a chunk.
    pub closed spec fn pending(&self) -> Set<ChunkKey> {
        position_set_contents(self.pending_chunks)
    }

    /// The positions asked of the chunk store and not answered yet.
    pub closed spec fn loading(&self) -> Set<ChunkKey> {
        position_set_contents(self.loading_chunks)
    }

    /// No position is both loaded and waiting.
    pub open spec fn consistent(&self) -> bool {
        forall|p: ChunkKey| !(#[trigger] self.loaded().contains_key(p) && self.pending().contains(p))
    }

    /// `self` follows from `before` by taking answers only: every chunk
    /// loaded before stays, unchanged; a chunk is newly loaded only where
    /// its position was waiting; the waiting and the loading positions only
    /// shrink; the render distance stays.
    pub open spec fn settled_from(self, before: WorldState) -> bool {
        &&& self.distance() == before.distance()
        &&& forall|k: ChunkKey|
            #[trigger] before.loaded().contains_key(k) ==> self.loaded().contains_key(k)
                && self.loaded()[k] == before.loaded()[k]
        &&& forall|k: ChunkKey|
            #[trigger] self.loaded().contains_key(k) ==> before.loaded().contains_key(k)
                || before.pending().contains(k)
        &&& self.pending().subset_of(before.pending())
        &&& self.loading().subset_of(before.loading())
    }

    /// A world with nothing loaded.
    pub fn new(render_distance: i32) -> (r: WorldState)
        ensures
            r.distance() == render_distance,
            r.loaded() == Map::<ChunkKey, Chunk>::empty(),
            r.pending() == Set::<ChunkKey>::empty(),
            r.loading() == Set::<ChunkKey>::empty(),
            r.consistent(),
    {
        WorldState {
            chunks: ChunkMap::new(),
            render_distance,
            pending_chunks: PositionSet::new(),
            loading_chunks: PositionSet::new(),
        }
    }

    /// Whether the chunk at `position` is loaded.
    pub fn is_loaded(&self, position: IVec3) -> (r: bool)
        ensures
            r == self.loaded().contains_key(key(position)),
    {
        self.chunks.contains_key((position.x, position.y, position.z))
    }

    /// The loaded chunk at `position`, if any.
    pub fn chunk_at(&self, position: IVec3) -> (r: Option<Arc<Chunk>>)
        ensures
            match r {
                Some(c) => self.loaded().contains_key(key(position)) && *c == self.loaded()[key(
                    position,
                )],
                None => !self.loaded().contains_key(key(position)),
            },
    {
        self.chunks.get((position.x, position.y, position.z))
    }
}


/// Entry `n` of the neighbourhood of chunk `pos`: the chunk at offset
/// `(n / 9 - 1, (n % 9) / 3 - 1, n % 3 - 1)`.
pub open spec fn neighbour_key(pos: IVec3, n: int) -> ChunkKey {
    ((pos.x + n / 9 - 1) as i32, (pos.y + (n % 9) / 3 - 1) as i32, (pos.z + n % 3 - 1) as i32)
}

/// The chunk position can be looked at together with its neighbours.
pub open spec fn neighbourhood_fits(pos: IVec3) -> bool {
    &&& i32::MIN < pos.x < i32::MAX
    &&& i32::MIN < pos.y < i32::MAX
    &&& i32::MIN < pos.z < i32::MAX
}

proof fn lemma_neighbour_index(a: int, b: int, c: int)
    by (nonlinear_arith)
    requires
        0 <= a < 3,
        0 <= b < 3,
        0 <= c < 3,
    ensures
        (a * 9 + b * 3 + c) / 9 == a,
        ((a * 9 + b * 3 + c) % 9) / 3 == b,
        (a * 9 + b * 3 + c) % 3 == c,
        0 <= a * 9 + b * 3 + c < 27,
{
}

/// Looking a voxel up in the neighbourhood of the chunk at `pos`: when
/// entry `n` of `cr` is the chunk at offset
/// `(n / 9 - 1, (n % 9) / 3 - 1, n % 3 - 1)` from `pos`, the voxel at `p`
/// (relative to the origin of the chunk at `pos`, each coordinate in
/// `-32 .. 64`) is voxel `p mod 32` of the chunk at `pos + floor(p / 32)`.
pub proof fn lemma_neighbourhood_reads(
    loaded: Map<ChunkKey, Chunk>,
    pos: IVec3,
    cr: ChunkRefs,
    p: Triple,
)
    requires
        forall|n: int|
            0 <= n < 27 ==> *#[trigger] cr.refs@[n] == loaded[(
                (pos.x + n / 9 - 1) as i32,
                (pos.y + (n % 9) / 3 - 1) as i32,
                (pos.z + n % 3 - 1) as i32,
            )],
        -32 <= p.0 < 64,
        -32 <= p.1 < 64,
        -32 <= p.2 < 64,
    ensures
        cr.voxel(p) == voxel_of(
            loaded[(
                (pos.x + p.0 / 32) as i32,
                (pos.y + p.1 / 32) as i32,
                (pos.z + p.2 / 32) as i32,
            )].voxels@[(p.0 % 32) * 1024 + (p.1 % 32) * 32 + p.2 % 32],
        ),
{
    lemma_neighbourhood_lookup(p.0, p.1, p.2);
    let a = p.0 / 32 + 1;
    let b = p.1 / 32 + 1;
    let c = p.2 / 32 + 1;
    lemma_neighbour_index(a, b, c);
    let n = a * 9 + b * 3 + c;
    assert(*cr.refs@[n] == loaded[(
        (pos.x + n / 9 - 1) as i32,
        (pos.y + (n % 9) / 3 - 1) as i32,
        (pos.z + n % 3 - 1) as i32,
    )]);
}

impl WorldState {
    /// The chunk at `pos` with the 26 chunks around it, when all of them
    /// are loaded; `refs[13]` is the chunk at `pos`.
    pub fn get_chunk_refs(&self, pos: IVec3) -> (r: Option<ChunkRefs>)
        requires
            neighbourhood_fits(pos),
        ensures
            match r {
                Some(cr) => forall|n: int|
                    0 <= n < 27 ==> self.loaded().contains_key(#[trigger] neighbour_key(pos, n))
                        && *cr.refs@[n] == self.loaded()[neighbour_key(pos, n)],
                None => exists|n: int|
                    0 <= n < 27 && !self.loaded().contains_key(#[trigger] neighbour_key(pos, n)),
            },
            match r {
                Some(cr) => {
                    &&& forall|n: int|
                        0 <= n < 27 ==> *#[trigger] cr.refs@[n] == self.loaded()[(
                            (pos.x + n / 9 - 1) as i32,
                            (pos.y + (n % 9) / 3 - 1) as i32,
                            (pos.z + n % 3 - 1) as i32,
                        )]
                    &&& forall|p: Triple|
                        -32 <= p.0 < 64 && -32 <= p.1 < 64 && -32 <= p.2 < 64 ==> #[trigger] cr.voxel(p)
                            == voxel_of(
                            self.loaded()[(
                                (pos.x + p.0 / 32) as i32,
                                (pos.y + p.1 / 32) as i32,
                                (pos.z + p.2 / 32) as i32,
                            )].voxels@[(p.0 % 32) * 1024 + (p.1 % 32) * 32 + p.2 % 32],
                        )
                },
                None => true,
            },
    {
        let mut refs: Vec<Arc<Chunk>> = Vec::new();
        let mut x: i32 = -1;
        while x <= 1
            invariant
                neighbourhood_fits(pos),
                -1 <= x <= 2,
                refs.len() == (x + 1) * 9,
                forall|n: int|
                    0 <= n < refs.len() ==> self.loaded().contains_key(#[trigger] neighbour_key(pos, n))
                        && *refs@[n] == self.loaded()[neighbour_key(pos, n)],
            decreases 2 - x,
        {
            let mut y: i32 = -1;
            while y <= 1
                invariant
                    neighbourhood_fits(pos),
                    -1 <= x <= 1,
                    -1 <= y <= 2,
                    refs.len() == (x + 1) * 9 + (y + 1) * 3,
                    forall|n: int|
                        0 <= n < refs.len() ==> self.loaded().contains_key(
                            #[trigger] neighbour_key(pos, n),
                        ) && *refs@[n] == self.loaded()[neighbour_key(pos, n)],
                decreases 2 - y,
            {
                let mut z: i32 = -1;
                while z <= 1
                    invariant
                        neighbourhood_fits(pos),
                        -1 <= x <= 1,
                        -1 <= y <= 1,
                        -1 <= z <= 2,
                        refs.len() == (x + 1) * 9 + (y + 1) * 3 + (z + 1),
                        forall|n: int|
                            0 <= n < refs.len() ==> self.loaded().contains_key(
                                #[trigger] neighbour_key(pos, n),
                            ) && *refs@[n] == self.loaded()[neighbour_key(pos, n)],
                    decreases 2 - z,
                {
                    let neighbor_pos = IVec3::new(pos.x + x, pos.y + y, pos.z + z);
                    proof {
                        lemma_neighbour_index((x + 1) as int, (y + 1) as int, (z + 1) as int);
                    }
                    let ghost n = refs.len() as int;
                    assert(neighbour_key(pos, n) == key(neighbor_pos));
                    match self.chunks.get((neighbor_pos.x, neighbor_pos.y, neighbor_pos.z)) {
                        Some(chunk) => {
                            refs.push(chunk);
                        },
                        None => {
                            return None;
                        },
                    }
                    z += 1;
                }
                y += 1;
            }
            x += 1;
        }
        match neighbours_array(refs) {
            Some(refs_array) => {
                let cr = ChunkRefs { refs: refs_array };
                proof {
                    assert forall|n: int| 0 <= n < 27 implies *#[trigger] cr.refs@[n] == self.loaded()[(
                        (pos.x + n / 9 - 1) as i32,
                        (pos.y + (n % 9) / 3 - 1) as i32,
                        (pos.z + n % 3 - 1) as i32,
                    )] by {
                        assert(neighbour_key(pos, n) == (
                            (pos.x + n / 9 - 1) as i32,
                            (pos.y + (n % 9) / 3 - 1) as i32,
                            (pos.z + n % 3 - 1) as i32,
                        ));
                    }
                    assert forall|p: Triple|
                        -32 <= p.0 < 64 && -32 <= p.1 < 64 && -32 <= p.2 < 64 implies #[trigger] cr.voxel(p)
                            == voxel_of(
                            self.loaded()[(
                                (pos.x + p.0 / 32) as i32,
                                (pos.y + p.1 / 32) as i32,
                                (pos.z + p.2 / 32) as i32,
                            )].voxels@[(p.0 % 32) * 1024 + (p.1 % 32) * 32 + p.2 % 32],
                        ) by {
                        lemma_neighbourhood_reads(self.loaded(), pos, cr, p);
                    }
                }
                Some(cr)
            },
            None => None,
        }
    }

    /// Whether the voxel at world position `position` is solid, as far as the
    /// loaded chunks tell: it counts only where its chunk and all the chunks
    /// around that one are loaded.
    pub fn voxel_solid_at(&self, position: IVec3) -> (r: bool)
        ensures
            r == ({
                let c = position.chunk_of();
                let l = position.local_of();
                let cpos = IVec3 { x: c.0 as i32, y: c.1 as i32, z: c.2 as i32 };
                &&& forall|n: int|
                    0 <= n < 27 ==> self.loaded().contains_key(#[trigger] neighbour_key(cpos, n))
                &&& self.loaded()[key(cpos)].voxel_at(l.0 * 1024 + l.1 * 32 + l.2).solid()
            }),
    {
        let global_position = position.to_chunk_pos();
        proof {
            crate::position::lemma_chunk_split(position);
            assert(global_position.x as int == position.x as int / 32);
            lemma_neighbour_index(1, 1, 1);
            assert(neighbour_key(global_position, 13) == key(global_position));
        }
        match self.get_chunk_refs(global_position) {
            Some(chunk_refs) => {
                let local_position = position.to_local_pos();
                proof {
                    crate::position::lemma_chunk_split(position);
                    crate::position::lemma_position_round_trip(local_position);
                }
                chunk_refs.get_only_self(local_position).is_solid()
            },
            None => false,
        }
    }
}


/// A chunk with every voxel empty.
pub open spec fn is_cleared(c: Chunk) -> bool {
    forall|i: int| 0 <= i < 32768 ==> #[trigger] c.voxels@[i] == 0u32
}

/// One generated chunk arriving: it is taken (and a save of it is asked)
/// only when its position is still waiting.
pub open spec fn generated_step(
    st: (Map<ChunkKey, Chunk>, Set<ChunkKey>, Seq<IORequest>),
    item: (IVec3, Arc<Chunk>),
) -> (Map<ChunkKey, Chunk>, Set<ChunkKey>, Seq<IORequest>) {
    let k = key(item.0);
    if st.1.contains(k) {
        (
            st.0.insert(k, *item.1),
            st.1.remove(k),
            st.2.push(IORequest::SaveChunk { position: item.0, chunk: item.1 }),
        )
    } else {
        st
    }
}

/// The loaded chunks, waiting positions and save requests after the first
/// `n` generated chunks of `items`.
pub open spec fn generated_upto(
    loaded: Map<ChunkKey, Chunk>,
    pending: Set<ChunkKey>,
    items: Seq<(IVec3, Arc<Chunk>)>,
    n: int,
) -> (Map<ChunkKey, Chunk>, Set<ChunkKey>, Seq<IORequest>)
    decreases n,
{
    if n <= 0 {
        (loaded, pending, Seq::empty())
    } else {
        generated_step(generated_upto(loaded, pending, items, n - 1), items[n - 1])
    }
}

impl WorldState {
    /// Empties the loaded chunk at `position`, if there is one, and asks the
    /// store to save the emptied chunk.
    pub fn clear_chunk(&mut self, position: IVec3) -> (r: Option<IORequest>)
        ensures
            final(self).distance() == old(self).distance(),
            final(self).pending() == old(self).pending(),
            final(self).loading() == old(self).loading(),
            old(self).consistent() ==> final(self).consistent(),
            match r {
                Some(req) => old(self).loaded().contains_key(key(position)) && exists|c: Arc<Chunk>|
                    #![trigger is_cleared(*c)]
                    is_cleared(*c) && req == (IORequest::SaveChunk { position, chunk: c })
                        && final(self).loaded() == old(self).loaded().insert(key(position), *c),
                None => !old(self).loaded().contains_key(key(position)) && final(self).loaded()
                    == old(self).loaded(),
            },
    {
        let k = (position.x, position.y, position.z);
        if self.chunks.contains_key(k) {
            let chunk = Arc::new(Chunk { voxels: [0u32; CHUNK_SIZE3_U] });
            self.chunks.insert(k, share(&chunk));
            let req = IORequest::SaveChunk { position, chunk };
            assert(is_cleared(*chunk));
            proof {
                if old(self).consistent() {
                    assert forall|p: ChunkKey|
                        !(#[trigger] self.loaded().contains_key(p) && self.pending().contains(p)) by {
                        assert(!(old(self).loaded().contains_key(p) && old(self).pending().contains(p)));
                    }
                }
            }
            Some(req)
        } else {
            None
        }
    }

    /// Takes the chunks that the generator made, in order: a chunk whose
    /// position is still waiting is loaded and a save of it is asked; the
    /// others are dropped.
    pub fn process_generated(&mut self, chunks: Vec<(IVec3, Arc<Chunk>)>) -> (r: Vec<IORequest>)
        ensures
            final(self).distance() == old(self).distance(),
            final(self).loading() == old(self).loading(),
            old(self).consistent() ==> final(self).consistent(),
            old(self).consistent() ==> final(self).settled_from(*old(self)),
            (final(self).loaded(), final(self).pending(), r@) == generated_upto(
                old(self).loaded(),
                old(self).pending(),
                chunks@,
                chunks.len() as int,
            ),
    {
        let mut saves: Vec<IORequest> = Vec::new();
        let mut i: usize = 0;
        while i < chunks.len()
            invariant
                i <= chunks.len(),
                self.distance() == old(self).distance(),
                self.loading() == old(self).loading(),
                (self.loaded(), self.pending(), saves@) == generated_upto(
                    old(self).loaded(),
                    old(self).pending(),
                    chunks@,
                    i as int,
                ),
            decreases chunks.len() - i,
        {
            let position = chunks[i].0;
            let chunk = share(&chunks[i].1);
            let k = (position.x, position.y, position.z);
            if self.pending_chunks.remove(k) {
                saves.push(IORequest::SaveChunk { position, chunk: share(&chunk) });
                self.chunks.insert(k, chunk);
            }
            i += 1;
        }
        proof {
            if old(self).consistent() {
                lemma_generated_consistent(
                    old(self).loaded(),
                    old(self).pending(),
                    chunks@,
                    chunks.len() as int,
                );
                lemma_generated_settles(
                    old(self).loaded(),
                    old(self).pending(),
                    chunks@,
                    chunks.len() as int,
                );
                let st = generated_upto(
                    old(self).loaded(),
                    old(self).pending(),
                    chunks@,
                    chunks.len() as int,
                );
                assert forall|p: ChunkKey|
                    !(#[trigger] self.loaded().contains_key(p) && self.pending().contains(p)) by {
                    assert(!(st.0.contains_key(p) && st.1.contains(p)));
                }
                assert(self.loaded() == st.0 && self.pending() == st.1);
                assert forall|k: ChunkKey| #[trigger] old(self).loaded().contains_key(k) implies self.loaded().contains_key(
                    k,
                ) && self.loaded()[k] == old(self).loaded()[k] by {
                    assert(st.0.contains_key(k));
                }
                assert forall|k: ChunkKey| #[trigger] self.loaded().contains_key(k) implies old(self).loaded().contains_key(
                    k,
                ) || old(self).pending().contains(k) by {
                    assert(st.0.contains_key(k));
                }
                assert(self.loading() =~= old(self).loading());
            }
        }
        saves
    }

    /// Takes an answer of the chunk store. A loaded chunk is taken when its
    /// position is still waiting; a chunk missing from the store is asked of
    /// the generator when its position is still waiting.
    pub fn process_io_response(&mut self, response: IOResponse) -> (r: Option<WorldRequest>)
        ensures
            final(self).distance() == old(self).distance(),
            old(self).consistent() ==> final(self).consistent(),
            old(self).consistent() ==> final(self).settled_from(*old(self)),
            match response {
                IOResponse::ChunkLoaded(pos, Some(chunk)) => {
                    &&& final(self).loading() == old(self).loading().remove(key(pos))
                    &&& r is None
                    &&& if old(self).pending().contains(key(pos)) {
                        &&& final(self).pending() == old(self).pending().remove(key(pos))
                        &&& final(self).loaded() == old(self).loaded().insert(key(pos), *chunk)
                    } else {
                        &&& final(self).pending() == old(self).pending()
                        &&& final(self).loaded() == old(self).loaded()
                    }
                },
                IOResponse::ChunkLoaded(pos, None) => {
                    &&& final(self).loading() == old(self).loading().remove(key(pos))
                    &&& final(self).pending() == old(self).pending()
                    &&& final(self).loaded() == old(self).loaded()
                    &&& match r {
                        Some(WorldRequest::GenerateChunks { x, z, ys }) => old(self).pending().contains(
                            key(pos),
                        ) && x == pos.x && z == pos.z && ys@ == seq![pos.y],
                        None => !old(self).pending().contains(key(pos)),
                    }
                },
                IOResponse::ChunkSaved(_) => {
                    &&& r is None
                    &&& final(self).loading() == old(self).loading()
                    &&& final(self).pending() == old(self).pending()
                    &&& final(self).loaded() == old(self).loaded()
                },
            },
    {
        match response {
            IOResponse::ChunkLoaded(pos, chunk) => {
                let k = (pos.x, pos.y, pos.z);
                self.loading_chunks.remove(k);
                match chunk {
                    Some(chunk) => {
                        if self.pending_chunks.remove(k) {
                            self.chunks.insert(k, chunk);
                        }
                        proof {
                            if old(self).consistent() {
                                assert forall|p: ChunkKey|
                                    !(#[trigger] self.loaded().contains_key(p) && self.pending().contains(
                                        p,
                                    )) by {
                                    assert(!(old(self).loaded().contains_key(p)
                                        && old(self).pending().contains(p)));
                                }
                            }
                        }
                        None
                    },
                    None => {
                        proof {
                            if old(self).consistent() {
                                assert forall|p: ChunkKey|
                                    !(#[trigger] self.loaded().contains_key(p) && self.pending().contains(
                                        p,
                                    )) by {
                                    assert(!(old(self).loaded().contains_key(p)
                                        && old(self).pending().contains(p)));
                                }
                            }
                        }
                        if self.pending_chunks.contains(k) {
                            let ys = vec![pos.y];
                            Some(WorldRequest::GenerateChunks { x: pos.x, z: pos.z, ys })
                        } else {
                            None
                        }
                    },
                }
            },
            IOResponse::ChunkSaved(_) => None,
        }
    }
}


/// The loaded chunks that stay: those within `distance` of the centre.
pub open spec fn kept(loaded: Map<ChunkKey, Chunk>, center: IVec3, distance: int) -> Map<
    ChunkKey,
    Chunk,
> {
    loaded.restrict(loaded.dom().filter(|p: ChunkKey| within_distance(p, key(center), distance)))
}

/// The loaded chunks that are dropped: those farther than `distance`.
pub open spec fn dropped(loaded: Map<ChunkKey, Chunk>, center: IVec3, distance: int) -> Map<
    ChunkKey,
    Chunk,
> {
    loaded.restrict(loaded.dom().filter(|p: ChunkKey| !within_distance(p, key(center), distance)))
}

/// The position that a store request is about.
pub open spec fn request_key(r: IORequest) -> ChunkKey {
    match r {
        IORequest::LoadChunk(p) => key(p),
        IORequest::SaveChunk { position, .. } => key(position),
    }
}

/// `saves` asks, once each, to save every chunk of `removed`, and nothing
/// else.
pub open spec fn saves_all(saves: Seq<IORequest>, removed: Map<ChunkKey, Chunk>) -> bool {
    &&& forall|i: int|
        0 <= i < saves.len() ==> (#[trigger] saves[i] matches IORequest::SaveChunk { position, chunk }
            && removed.contains_key(key(position)) && *chunk == removed[key(position)])
    &&& forall|i: int, j: int|
        0 <= i < j < saves.len() ==> request_key(#[trigger] saves[i]) != request_key(
            #[trigger] saves[j],
        )
    &&& forall|k: ChunkKey|
        #[trigger] removed.contains_key(k) ==> exists|i: int|
            0 <= i < saves.len() && request_key(#[trigger] saves[i]) == k
}

/// The positions of the load area, visited with `x` slowest and `y`
/// fastest from `(x, z, y)` on, that are neither loaded nor waiting.
pub open spec fn load_scan(
    loaded: Map<ChunkKey, Chunk>,
    pending: Set<ChunkKey>,
    center: IVec3,
    distance: int,
    x: int,
    z: int,
    y: int,
) -> Seq<ChunkKey>
    decreases center.x + distance + 1 - x, center.z + distance + 1 - z, center.y + distance + 1 - y,
{
    if x > center.x + distance {
        Seq::empty()
    } else if z > center.z + distance {
        load_scan(loaded, pending, center, distance, x + 1, center.z - distance, center.y - distance)
    } else if y > center.y + distance {
        load_scan(loaded, pending, center, distance, x, z + 1, center.y - distance)
    } else {
        let p = (x as i32, y as i32, z as i32);
        (if !loaded.contains_key(p) && !pending.contains(p) {
            seq![p]
        } else {
            Seq::empty()
        }) + load_scan(loaded, pending, center, distance, x, z, y + 1)
    }
}

/// The request to load the chunk at `p`.
pub open spec fn load_request(p: ChunkKey) -> IORequest {
    IORequest::LoadChunk(IVec3 { x: p.0, y: p.1, z: p.2 })
}

/// The load area around `center` fits in `i32`.
pub open spec fn load_area_fits(center: IVec3, distance: int) -> bool {
    distance < 0 || (i32::MIN <= center.x - distance && center.x + distance <= i32::MAX && i32::MIN
        <= center.y - distance && center.y + distance <= i32::MAX && i32::MIN <= center.z - distance
        && center.z + distance <= i32::MAX)
}

/// `q` comes before `(x, z, y)` in the order of the load scan.
pub open spec fn scan_before(q: ChunkKey, x: int, z: int, y: int) -> bool {
    q.0 < x || (q.0 == x && (q.2 < z || (q.2 == z && q.1 < y)))
}

impl WorldState {
    /// Moves the centre of the world to chunk `center`: the loaded chunks
    /// farther than the render distance plus one are dropped, each with a
    /// request to save it; waiting positions that far are forgotten; and
    /// every position within that distance that is neither loaded nor
    /// waiting becomes waiting, with a request to load it. The saves come
    /// first, in the map's order; then the loads, in the order of the scan
    /// (x slowest, then z, then y).
    pub fn update_load_area(&mut self, center: IVec3) -> (r: Vec<IORequest>)
        requires
            old(self).distance() < i32::MAX,
            load_area_fits(center, old(self).distance() + 1),
        ensures
            ({
                let rd = old(self).distance() + 1;
                let kept_map = kept(old(self).loaded(), center, rd);
                let pending_r = old(self).pending().filter(
                    |p: ChunkKey| within_distance(p, key(center), rd),
                );
                let loading_r = old(self).loading().filter(
                    |p: ChunkKey| within_distance(p, key(center), rd),
                );
                let scan = load_scan(
                    kept_map,
                    pending_r,
                    center,
                    rd,
                    center.x - rd,
                    center.z - rd,
                    center.y - rd,
                );
                let n = r.len() - scan.len();
                &&& final(self).distance() == old(self).distance()
                &&& old(self).consistent() ==> final(self).consistent()
                &&& final(self).loaded() == kept_map
                &&& final(self).pending() == pending_r + scan.to_set()
                &&& final(self).loading() == loading_r + scan.to_set()
                &&& 0 <= n
                &&& r@.subrange(n, r.len() as int) == scan.map_values(|p: ChunkKey| load_request(p))
                &&& saves_all(r@.take(n), dropped(old(self).loaded(), center, rd))
            }),
    {
        let render_distance = self.render_distance + 1;
        let center_key = (center.x, center.y, center.z);
        let ghost rd = render_distance as int;
        let ghost orig = self.loaded();
        // Unload the chunks outside the render distance, saving each.
        let entries = self.chunks.entries();
        let ghost keys = entries@.map_values(|en: (ChunkKey, Arc<Chunk>)| en.0);
        let mut requests: Vec<IORequest> = Vec::new();
        let mut e: usize = 0;
        while e < entries.len()
            invariant
                e <= entries.len(),
                rd == render_distance,
                center_key == key(center),
                orig == old(self).loaded(),
                self.distance() == old(self).distance(),
                self.pending() == old(self).pending(),
                self.loading() == old(self).loading(),
                forall|i: int|
                    0 <= i < entries.len() ==> orig.contains_key(#[trigger] entries@[i].0) && orig[entries@[i].0]
                        == *entries@[i].1,
                forall|i: int, j: int|
                    0 <= i < j < entries.len() ==> #[trigger] entries@[i].0 != #[trigger] entries@[j].0,
                self.loaded() == orig.remove_keys(unloaded_upto(entries@, e as int, center, rd)),
                saves_all(requests@, orig.restrict(unloaded_upto(entries@, e as int, center, rd))),
            decreases entries.len() - e,
        {
            let position = entries[e].0;
            if !is_within_distance(&position, center_key, render_distance) {
                let chunk = share(&entries[e].1);
                let ghost before = requests@;
                requests.push(
                    IORequest::SaveChunk {
                        position: IVec3::new(position.0, position.1, position.2),
                        chunk,
                    },
                );
                self.chunks.remove(position);
                proof {
                    lemma_unload_step(entries@, e as int, center, rd, orig, before, requests@);
                }
            } else {
                proof {
                    lemma_keep_step(entries@, e as int, center, rd);
                }
            }
            e += 1;
        }
        proof {
            lemma_unloaded_all(entries@, center, rd, orig);
        }
        let ghost saves = requests@;
        // Forget the waiting positions outside the render distance.
        self.pending_chunks.retain_within(center_key, render_distance);
        self.loading_chunks.retain_within(center_key, render_distance);
        let ghost kept_map = self.loaded();
        let ghost pending_r = self.pending();
        let ghost loading_r = self.loading();
        let ghost full = load_scan(
            kept_map,
            pending_r,
            center,
            rd,
            center.x - rd,
            center.z - rd,
            center.y - rd,
        );
        let ghost mut done: Seq<ChunkKey> = Seq::empty();
        // Ask for the chunks within the render distance that are missing.
        let rd64 = render_distance as i64;
        let mut x_off: i64 = -rd64;
        while x_off <= rd64
            invariant
                rd == render_distance,
                rd64 == rd,
                -rd <= x_off,
                rd >= 0 ==> x_off <= rd + 1,
                load_area_fits(center, rd),
                self.distance() == old(self).distance(),
                self.loaded() == kept_map,
                self.pending() == pending_r + done.to_set(),
                self.loading() == loading_r + done.to_set(),
                requests@ == saves + done.map_values(|p: ChunkKey| load_request(p)),
                forall|q: ChunkKey| #[trigger] done.contains(q) ==> !pending_r.contains(q),
                forall|q: ChunkKey|
                    #[trigger] done.contains(q) ==> scan_before(
                        q,
                        center.x + x_off,
                        center.z - rd,
                        center.y - rd,
                    ),
                done + load_scan(
                    kept_map,
                    pending_r,
                    center,
                    rd,
                    center.x + x_off,
                    center.z - rd,
                    center.y - rd,
                ) == full,
            decreases rd64 + 1 - x_off,
        {
            let x = (center.x as i64 + x_off) as i32;
            let mut z_off: i64 = -rd64;
            while z_off <= rd64
                invariant
                    rd == render_distance,
                    rd64 == rd,
                    -rd <= x_off <= rd,
                    -rd <= z_off <= rd + 1,
                    x == center.x + x_off,
                    load_area_fits(center, rd),
                    self.distance() == old(self).distance(),
                    self.loaded() == kept_map,
                    self.pending() == pending_r + done.to_set(),
                    self.loading() == loading_r + done.to_set(),
                    requests@ == saves + done.map_values(|p: ChunkKey| load_request(p)),
                    forall|q: ChunkKey| #[trigger] done.contains(q) ==> !pending_r.contains(q),
                    forall|q: ChunkKey|
                        #[trigger] done.contains(q) ==> scan_before(
                            q,
                            x as int,
                            center.z + z_off,
                            center.y - rd,
                        ),
                    done + load_scan(
                        kept_map,
                        pending_r,
                        center,
                        rd,
                        x as int,
                        center.z + z_off,
                        center.y - rd,
                    ) == full,
                decreases rd64 + 1 - z_off,
            {
                let z = (center.z as i64 + z_off) as i32;
                let mut y_off: i64 = -rd64;
                while y_off <= rd64
                    invariant
                        rd == render_distance,
                        rd64 == rd,
                        -rd <= x_off <= rd,
                        -rd <= z_off <= rd,
                        -rd <= y_off <= rd + 1,
                        x == center.x + x_off,
                        z == center.z + z_off,
                        load_area_fits(center, rd),
                        self.distance() == old(self).distance(),
                        self.loaded() == kept_map,
                        self.pending() == pending_r + done.to_set(),
                        self.loading() == loading_r + done.to_set(),
                        requests@ == saves + done.map_values(|p: ChunkKey| load_request(p)),
                        forall|q: ChunkKey| #[trigger] done.contains(q) ==> !pending_r.contains(q),
                        forall|q: ChunkKey|
                            #[trigger] done.contains(q) ==> scan_before(
                                q,
                                x as int,
                                z as int,
                                center.y + y_off,
                            ),
                        done + load_scan(
                            kept_map,
                            pending_r,
                            center,
                            rd,
                            x as int,
                            z as int,
                            center.y + y_off,
                        ) == full,
                    decreases rd64 + 1 - y_off,
                {
                    let y = (center.y as i64 + y_off) as i32;
                    let pos = IVec3::new(x, y, z);
                    let k = (x, y, z);
                    let ghost before = done;
                    proof {
                        assert(!done.contains(k)) by {
                            if done.contains(k) {
                                assert(scan_before(k, x as int, z as int, center.y + y_off));
                            }
                        }
                    }
                    if !self.chunks.contains_key(k) && !self.pending_chunks.contains(k) {
                        self.pending_chunks.insert(k);
                        self.loading_chunks.insert(k);
                        requests.push(IORequest::LoadChunk(pos));
                        proof {
                            done = done.push(k);
                            assert(done.map_values(|p: ChunkKey| load_request(p)) =~= before.map_values(
                                |p: ChunkKey| load_request(p),
                            ).push(load_request(k)));
                            assert(requests@ =~= saves + done.map_values(
                                |p: ChunkKey| load_request(p),
                            ));
                            before.lemma_push_to_set_commute(k);
                            assert(self.pending() =~= pending_r + done.to_set());
                            assert(self.loading() =~= loading_r + done.to_set());
                        }
                    }
                    proof {
                        let rest = load_scan(
                            kept_map,
                            pending_r,
                            center,
                            rd,
                            x as int,
                            z as int,
                            center.y + y_off + 1,
                        );
                        assert(load_scan(
                            kept_map,
                            pending_r,
                            center,
                            rd,
                            x as int,
                            z as int,
                            center.y + y_off,
                        ) == (if !kept_map.contains_key(k) && !pending_r.contains(k) {
                            seq![k]
                        } else {
                            Seq::empty()
                        }) + rest);
                        assert(done + rest =~= full);
                        assert forall|q: ChunkKey| #[trigger] done.contains(q) implies scan_before(
                            q,
                            x as int,
                            z as int,
                            center.y + y_off + 1,
                        ) by {
                            if before.contains(q) {
                                assert(scan_before(q, x as int, z as int, center.y + y_off));
                            }
                        }
                        assert forall|q: ChunkKey| #[trigger] done.contains(q) implies !pending_r.contains(q) by {
                            if before.contains(q) {
                            }
                        }
                    }
                    y_off += 1;
                }
                proof {
                    assert forall|q: ChunkKey| #[trigger] done.contains(q) implies scan_before(
                        q,
                        x as int,
                        center.z + z_off + 1,
                        center.y - rd,
                    ) by {
                        assert(scan_before(q, x as int, z as int, center.y + y_off));
                    }
                }
                z_off += 1;
            }
            proof {
                assert forall|q: ChunkKey| #[trigger] done.contains(q) implies scan_before(
                    q,
                    center.x + x_off + 1,
                    center.z - rd,
                    center.y - rd,
                ) by {
                    assert(scan_before(q, x as int, center.z + z_off, center.y - rd));
                }
            }
            x_off += 1;
        }
        proof {
            assert(done =~= full);
            assert(requests@.subrange(saves.len() as int, requests.len() as int) =~= full.map_values(
                |p: ChunkKey| load_request(p),
            ));
            assert(requests@.take(saves.len() as int) =~= saves);
            if old(self).consistent() {
                assert forall|p: ChunkKey|
                    !(#[trigger] self.loaded().contains_key(p) && self.pending().contains(p)) by {
                    lemma_load_area_covered(old(self).loaded(), old(self).pending(), center, rd, p);
                    assert(!(old(self).loaded().contains_key(p) && old(self).pending().contains(p)));
                    if self.pending().contains(p) && !pending_r.contains(p) {
                        assert(full.to_set().contains(p));
                        assert(full.contains(p));
                    }
                }
            }
        }
        requests
    }
}

/// The positions among the first `e` entries that are unloaded: those
/// farther than `distance` from the centre.
pub open spec fn unloaded_upto(
    entries: Seq<(ChunkKey, Arc<Chunk>)>,
    e: int,
    center: IVec3,
    distance: int,
) -> Set<ChunkKey> {
    Set::new(
        |k: ChunkKey|
            exists|i: int|
                0 <= i < e && #[trigger] entries[i].0 == k && !within_distance(k, key(center), distance),
    )
}

proof fn lemma_keep_step(
    entries: Seq<(ChunkKey, Arc<Chunk>)>,
    e: int,
    center: IVec3,
    distance: int,
)
    requires
        0 <= e < entries.len(),
        within_distance(entries[e].0, key(center), distance),
    ensures
        unloaded_upto(entries, e + 1, center, distance) == unloaded_upto(entries, e, center, distance),
{
    assert(unloaded_upto(entries, e + 1, center, distance) =~= unloaded_upto(
        entries,
        e,
        center,
        distance,
    ));
}

proof fn lemma_unload_step(
    entries: Seq<(ChunkKey, Arc<Chunk>)>,
    e: int,
    center: IVec3,
    distance: int,
    orig: Map<ChunkKey, Chunk>,
    before: Seq<IORequest>,
    after: Seq<IORequest>,
)
    requires
        0 <= e < entries.len(),
        !within_distance(entries[e].0, key(center), distance),
        forall|i: int|
            0 <= i < entries.len() ==> orig.contains_key(#[trigger] entries[i].0) && orig[entries[i].0]
                == *entries[i].1,
        forall|i: int, j: int|
            0 <= i < j < entries.len() ==> #[trigger] entries[i].0 != #[trigger] entries[j].0,
        saves_all(before, orig.restrict(unloaded_upto(entries, e, center, distance))),
        after == before.push(
            IORequest::SaveChunk {
                position: IVec3 { x: entries[e].0.0, y: entries[e].0.1, z: entries[e].0.2 },
                chunk: entries[e].1,
            },
        ),
    ensures
        unloaded_upto(entries, e + 1, center, distance) == unloaded_upto(
            entries,
            e,
            center,
            distance,
        ).insert(entries[e].0),
        saves_all(after, orig.restrict(unloaded_upto(entries, e + 1, center, distance))),
{
    let k = entries[e].0;
    let u0 = unloaded_upto(entries, e, center, distance);
    let u1 = unloaded_upto(entries, e + 1, center, distance);
    assert(u1 =~= u0.insert(k));
    assert(!u0.contains(k)) by {
        if u0.contains(k) {
            let i = choose|i: int| 0 <= i < e && #[trigger] entries[i].0 == k && !within_distance(
                k,
                key(center),
                distance,
            );
            assert(entries[i].0 != entries[e].0);
        }
    }
    let removed = orig.restrict(u1);
    assert forall|i: int| 0 <= i < after.len() implies (#[trigger] after[i] matches IORequest::SaveChunk {
        position,
        chunk,
    } && removed.contains_key(key(position)) && *chunk == removed[key(position)]) by {
        if i < before.len() {
            assert(after[i] == before[i]);
        }
    }
    assert forall|i: int, j: int| 0 <= i < j < after.len() implies request_key(#[trigger] after[i])
        != request_key(#[trigger] after[j]) by {
        if j == before.len() {
            assert(after[i] == before[i]);
            assert(orig.restrict(u0).contains_key(request_key(before[i])));
        } else {
            assert(after[i] == before[i]);
            assert(after[j] == before[j]);
        }
    }
    assert forall|k2: ChunkKey| #[trigger] removed.contains_key(k2) implies exists|i: int|
        0 <= i < after.len() && request_key(#[trigger] after[i]) == k2 by {
        if k2 == k {
            assert(request_key(after[before.len() as int]) == k2);
        } else {
            assert(orig.restrict(u0).contains_key(k2));
            let i = choose|i: int| 0 <= i < before.len() && request_key(#[trigger] before[i]) == k2;
            assert(after[i] == before[i]);
        }
    }
}

proof fn lemma_unloaded_all(
    entries: Seq<(ChunkKey, Arc<Chunk>)>,
    center: IVec3,
    distance: int,
    orig: Map<ChunkKey, Chunk>,
)
    requires
        forall|i: int|
            0 <= i < entries.len() ==> orig.contains_key(#[trigger] entries[i].0) && orig[entries[i].0]
                == *entries[i].1,
        forall|k: ChunkKey|
            orig.contains_key(k) ==> exists|i: int| 0 <= i < entries.len() && #[trigger] entries[i].0 == k,
    ensures
        orig.remove_keys(unloaded_upto(entries, entries.len() as int, center, distance)) == kept(
            orig,
            center,
            distance,
        ),
        orig.restrict(unloaded_upto(entries, entries.len() as int, center, distance)) == dropped(
            orig,
            center,
            distance,
        ),
{
    let u = unloaded_upto(entries, entries.len() as int, center, distance);
    assert forall|k: ChunkKey| orig.contains_key(k) && !within_distance(k, key(center), distance)
        implies u.contains(k) by {
        let i = choose|i: int| 0 <= i < entries.len() && #[trigger] entries[i].0 == k;
    }
    assert(orig.remove_keys(u) =~= kept(orig, center, distance));
    assert(orig.restrict(u) =~= dropped(orig, center, distance));
}


/// `p` lies in the load area around `center` and comes at or after
/// `(x, z, y)` in the order of the scan.
pub open spec fn scan_ahead(p: ChunkKey, center: IVec3, distance: int, x: int, z: int, y: int) -> bool {
    &&& within_distance(p, key(center), distance)
    &&& !scan_before(p, x, z, y)
}

/// What the load scan lists: exactly the positions ahead of it in the load
/// area that are neither loaded nor waiting.
pub proof fn lemma_load_scan_contains(
    loaded: Map<ChunkKey, Chunk>,
    pending: Set<ChunkKey>,
    center: IVec3,
    distance: int,
    x: int,
    z: int,
    y: int,
    p: ChunkKey,
)
    requires
        load_area_fits(center, distance),
        center.x - distance <= x,
        center.z - distance <= z <= center.z + distance + 1,
        center.y - distance <= y <= center.y + distance + 1,
    ensures
        load_scan(loaded, pending, center, distance, x, z, y).contains(p) <==> (scan_ahead(
            p,
            center,
            distance,
            x,
            z,
            y,
        ) && !loaded.contains_key(p) && !pending.contains(p)),
    decreases center.x + distance + 1 - x, center.z + distance + 1 - z, center.y + distance + 1 - y,
{
    let scan = load_scan(loaded, pending, center, distance, x, z, y);
    if x > center.x + distance {
        assert(!scan_ahead(p, center, distance, x, z, y));
    } else if z > center.z + distance {
        lemma_load_scan_contains(
            loaded,
            pending,
            center,
            distance,
            x + 1,
            center.z - distance,
            center.y - distance,
            p,
        );
    } else if y > center.y + distance {
        lemma_load_scan_contains(loaded, pending, center, distance, x, z + 1, center.y - distance, p);
    } else {
        lemma_load_scan_contains(loaded, pending, center, distance, x, z, y + 1, p);
        let q = (x as i32, y as i32, z as i32);
        let head: Seq<ChunkKey> = if !loaded.contains_key(q) && !pending.contains(q) {
            seq![q]
        } else {
            Seq::empty()
        };
        let rest = load_scan(loaded, pending, center, distance, x, z, y + 1);
        assert(scan == head + rest);
        if scan.contains(p) {
            let i = choose|i: int| 0 <= i < scan.len() && scan[i] == p;
            if i >= head.len() {
                assert(rest[i - head.len()] == p);
            }
        }
        if rest.contains(p) {
            let i = choose|i: int| 0 <= i < rest.len() && rest[i] == p;
            assert(scan[i + head.len()] == p);
        }
        if p == q && !loaded.contains_key(q) && !pending.contains(q) {
            assert(scan[0] == p);
        }
    }
}

/// The load scan lists no position twice.
pub proof fn lemma_load_scan_distinct(
    loaded: Map<ChunkKey, Chunk>,
    pending: Set<ChunkKey>,
    center: IVec3,
    distance: int,
    x: int,
    z: int,
    y: int,
)
    requires
        load_area_fits(center, distance),
        center.x - distance <= x,
        center.z - distance <= z <= center.z + distance + 1,
        center.y - distance <= y <= center.y + distance + 1,
    ensures
        load_scan(loaded, pending, center, distance, x, z, y).no_duplicates(),
    decreases center.x + distance + 1 - x, center.z + distance + 1 - z, center.y + distance + 1 - y,
{
    if x > center.x + distance {
    } else if z > center.z + distance {
        lemma_load_scan_distinct(
            loaded,
            pending,
            center,
            distance,
            x + 1,
            center.z - distance,
            center.y - distance,
        );
    } else if y > center.y + distance {
        lemma_load_scan_distinct(loaded, pending, center, distance, x, z + 1, center.y - distance);
    } else {
        lemma_load_scan_distinct(loaded, pending, center, distance, x, z, y + 1);
        let q = (x as i32, y as i32, z as i32);
        let rest = load_scan(loaded, pending, center, distance, x, z, y + 1);
        lemma_load_scan_contains(loaded, pending, center, distance, x, z, y + 1, q);
        assert(!rest.contains(q));
        let scan = load_scan(loaded, pending, center, distance, x, z, y);
        if !loaded.contains_key(q) && !pending.contains(q) {
            assert(scan == seq![q] + rest);
            assert forall|i: int, j: int| 0 <= i < j < scan.len() implies scan[i] != scan[j] by {
                if i == 0 {
                    assert(scan[j] == rest[j - 1]);
                } else {
                    assert(scan[i] == rest[i - 1]);
                    assert(scan[j] == rest[j - 1]);
                }
            }
        } else {
            assert(scan =~= rest);
        }
    }
}

/// Moving the centre asks to load each position of the area that is
/// neither loaded nor waiting exactly once, and nothing else.
pub proof fn lemma_update_loads_missing(
    loaded: Map<ChunkKey, Chunk>,
    pending: Set<ChunkKey>,
    center: IVec3,
    distance: int,
    p: ChunkKey,
)
    requires
        load_area_fits(center, distance),
    ensures
        ({
            let kept_map = kept(loaded, center, distance);
            let pending_r = pending.filter(|q: ChunkKey| within_distance(q, key(center), distance));
            let scan = load_scan(
                kept_map,
                pending_r,
                center,
                distance,
                center.x - distance,
                center.z - distance,
                center.y - distance,
            );
            &&& scan.no_duplicates()
            &&& scan.contains(p) <==> (within_distance(p, key(center), distance) && !loaded.contains_key(p)
                && !pending.contains(p))
        }),
{
    let kept_map = kept(loaded, center, distance);
    let pending_r = pending.filter(|q: ChunkKey| within_distance(q, key(center), distance));
    if distance >= 0 {
        lemma_load_scan_contains(
            kept_map,
            pending_r,
            center,
            distance,
            center.x - distance,
            center.z - distance,
            center.y - distance,
            p,
        );
        lemma_load_scan_distinct(
            kept_map,
            pending_r,
            center,
            distance,
            center.x - distance,
            center.z - distance,
            center.y - distance,
        );
    } else {
        assert(load_scan(
            kept_map,
            pending_r,
            center,
            distance,
            center.x - distance,
            center.z - distance,
            center.y - distance,
        ) =~= Seq::<ChunkKey>::empty());
    }
}

/// After the centre of the world moves, every chunk position within the
/// render distance plus one is either loaded or waiting, and every loaded
/// chunk lies within it.
pub proof fn lemma_load_area_covered(
    loaded: Map<ChunkKey, Chunk>,
    pending: Set<ChunkKey>,
    center: IVec3,
    distance: int,
    p: ChunkKey,
)
    requires
        load_area_fits(center, distance),
    ensures
        ({
            let kept_map = kept(loaded, center, distance);
            let pending_r = pending.filter(|q: ChunkKey| within_distance(q, key(center), distance));
            let scan = load_scan(
                kept_map,
                pending_r,
                center,
                distance,
                center.x - distance,
                center.z - distance,
                center.y - distance,
            );
            &&& within_distance(p, key(center), distance) ==> kept_map.contains_key(p) || (pending_r
                + scan.to_set()).contains(p)
            &&& kept_map.contains_key(p) ==> within_distance(p, key(center), distance)
            &&& scan.contains(p) ==> !kept_map.contains_key(p) && !pending_r.contains(p)
                && within_distance(p, key(center), distance)
        }),
{
    let kept_map = kept(loaded, center, distance);
    let pending_r = pending.filter(|q: ChunkKey| within_distance(q, key(center), distance));
    if distance >= 0 {
        lemma_load_scan_contains(
            kept_map,
            pending_r,
            center,
            distance,
            center.x - distance,
            center.z - distance,
            center.y - distance,
            p,
        );
    } else {
        assert(load_scan(
            kept_map,
            pending_r,
            center,
            distance,
            center.x - distance,
            center.z - distance,
            center.y - distance,
        ) =~= Seq::<ChunkKey>::empty());
    }
}


/// Moving the centre to where it already is asks for nothing: after one
/// move, a second move to the same centre keeps every loaded chunk and
/// every waiting position, drops nothing and finds nothing to load.
pub proof fn lemma_update_load_area_settles(
    loaded: Map<ChunkKey, Chunk>,
    pending: Set<ChunkKey>,
    center: IVec3,
    distance: int,
)
    requires
        load_area_fits(center, distance),
    ensures
        ({
            let l1 = kept(loaded, center, distance);
            let pending_r = pending.filter(|q: ChunkKey| within_distance(q, key(center), distance));
            let p1 = pending_r + load_scan(
                l1,
                pending_r,
                center,
                distance,
                center.x - distance,
                center.z - distance,
                center.y - distance,
            ).to_set();
            &&& kept(l1, center, distance) == l1
            &&& dropped(l1, center, distance) =~= Map::<ChunkKey, Chunk>::empty()
            &&& p1.filter(|q: ChunkKey| within_distance(q, key(center), distance)) == p1
            &&& load_scan(
                l1,
                p1,
                center,
                distance,
                center.x - distance,
                center.z - distance,
                center.y - distance,
            ) =~= Seq::<ChunkKey>::empty()
        }),
{
    let l1 = kept(loaded, center, distance);
    let pending_r = pending.filter(|q: ChunkKey| within_distance(q, key(center), distance));
    let scan = load_scan(
        l1,
        pending_r,
        center,
        distance,
        center.x - distance,
        center.z - distance,
        center.y - distance,
    );
    let p1 = pending_r + scan.to_set();
    assert(kept(l1, center, distance) =~= l1);
    assert(dropped(l1, center, distance) =~= Map::<ChunkKey, Chunk>::empty());
    assert forall|q: ChunkKey| #[trigger] p1.contains(q) implies within_distance(
        q,
        key(center),
        distance,
    ) by {
        lemma_load_area_covered(loaded, pending, center, distance, q);
        if !pending_r.contains(q) {
            assert(scan.to_set().contains(q));
            assert(scan.contains(q));
        }
    }
    assert(p1.filter(|q: ChunkKey| within_distance(q, key(center), distance)) =~= p1);
    let again = load_scan(
        l1,
        p1,
        center,
        distance,
        center.x - distance,
        center.z - distance,
        center.y - distance,
    );
    if distance >= 0 {
        if again.len() > 0 {
            let q = again[0];
            assert(again.contains(q));
            lemma_load_scan_contains(
                l1,
                p1,
                center,
                distance,
                center.x - distance,
                center.z - distance,
                center.y - distance,
                q,
            );
            lemma_load_area_covered(loaded, pending, center, distance, q);
            assert(scan.contains(q) ==> scan.to_set().contains(q));
        }
    }
}

/// Taking generated chunks keeps every loaded chunk, loads new ones only
/// where their positions were waiting, and only shrinks the waiting set.
proof fn lemma_generated_settles(
    loaded: Map<ChunkKey, Chunk>,
    pending: Set<ChunkKey>,
    items: Seq<(IVec3, Arc<Chunk>)>,
    n: int,
)
    requires
        forall|p: ChunkKey| !(#[trigger] loaded.contains_key(p) && pending.contains(p)),
    ensures
        ({
            let st = generated_upto(loaded, pending, items, n);
            &&& forall|k: ChunkKey|
                #[trigger] loaded.contains_key(k) ==> st.0.contains_key(k) && st.0[k] == loaded[k]
            &&& forall|k: ChunkKey|
                #[trigger] st.0.contains_key(k) ==> loaded.contains_key(k) || pending.contains(k)
            &&& st.1.subset_of(pending)
        }),
    decreases n,
{
    if n > 0 {
        lemma_generated_settles(loaded, pending, items, n - 1);
        lemma_generated_consistent(loaded, pending, items, n - 1);
        let prev = generated_upto(loaded, pending, items, n - 1);
        let st = generated_upto(loaded, pending, items, n);
        assert(st == generated_step(prev, items[n - 1]));
        let k = key(items[n - 1].0);
        assert forall|k2: ChunkKey| #[trigger] loaded.contains_key(k2) implies st.0.contains_key(k2)
            && st.0[k2] == loaded[k2] by {
            assert(prev.0.contains_key(k2));
            if prev.1.contains(k) && k2 == k {
                assert(!(loaded.contains_key(k2) && pending.contains(k2)));
            }
        }
        assert forall|k2: ChunkKey| #[trigger] st.0.contains_key(k2) implies loaded.contains_key(k2)
            || pending.contains(k2) by {
            if k2 != k || !prev.1.contains(k) {
                assert(prev.0.contains_key(k2));
            }
        }
    }
}

/// Taking answers one after another only settles the world: what each
/// step keeps, the whole run keeps.
pub proof fn lemma_settled_chain(a: WorldState, b: WorldState, c: WorldState)
    requires
        b.settled_from(a),
        c.settled_from(b),
    ensures
        c.settled_from(a),
{
    assert forall|k: ChunkKey| #[trigger] c.loaded().contains_key(k) implies a.loaded().contains_key(
        k,
    ) || a.pending().contains(k) by {
        if b.pending().contains(k) {
            assert(a.pending().contains(k));
        }
    }
    assert forall|k: ChunkKey| #[trigger] a.loaded().contains_key(k) implies c.loaded().contains_key(
        k,
    ) && c.loaded()[k] == a.loaded()[k] by {
        assert(b.loaded().contains_key(k));
    }
}

/// Taking generated chunks never leaves a position both loaded and waiting.
proof fn lemma_generated_consistent(
    loaded: Map<ChunkKey, Chunk>,
    pending: Set<ChunkKey>,
    items: Seq<(IVec3, Arc<Chunk>)>,
    n: int,
)
    requires
        forall|p: ChunkKey| !(#[trigger] loaded.contains_key(p) && pending.contains(p)),
    ensures
        ({
            let st = generated_upto(loaded, pending, items, n);
            forall|p: ChunkKey| !(#[trigger] st.0.contains_key(p) && st.1.contains(p))
        }),
    decreases n,
{
    if n > 0 {
        lemma_generated_consistent(loaded, pending, items, n - 1);
        let prev = generated_upto(loaded, pending, items, n - 1);
        let st = generated_upto(loaded, pending, items, n);
        assert(st == generated_step(prev, items[n - 1]));
        assert forall|p: ChunkKey| !(#[trigger] st.0.contains_key(p) && st.1.contains(p)) by {
            assert(!(prev.0.contains_key(p) && prev.1.contains(p)));
        }
    }
}

} // verus!
