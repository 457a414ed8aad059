//! Which chunks the renderer holds a mesh of, and which chunks to mesh or
//! to forget as the world around the view changes.
use vstd::prelude::*;

use crate::chunk::{ChunkRefs, Instance};
use crate::collections::{position_set_contents, within_distance, ChunkKey, PositionSet};
use crate::mesh::{instance_data, mesh, mesh_faces};
use crate::position::IVec3;
use crate::world::{key, load_area_fits, neighbour_key, WorldState};

verus! {

/// The chunk position of a key.
pub open spec fn pos_of(p: ChunkKey) -> IVec3 {
    IVec3 { x: p.0, y: p.1, z: p.2 }
}

/// The chunk at `p` and all the chunks around it are loaded.
pub open spec fn neighbourhood_loaded(world: WorldState, p: ChunkKey) -> bool {
    forall|n: int|
        0 <= n < 27 ==> world.loaded().contains_key(#[trigger] neighbour_key(pos_of(p), n))
}

/// `refs` hold the chunk at `p` and the chunks around it, as loaded.
pub open spec fn refs_of(world: WorldState, p: ChunkKey, refs: ChunkRefs) -> bool {
    forall|n: int|
        0 <= n < 27 ==> *refs.refs@[n] == world.loaded()[#[trigger] neighbour_key(pos_of(p), n)]
}

/// `m` is what the renderer keeps of the mesh of `refs`: nothing when no
/// direction has a face, else the faces of each direction.
pub open spec fn is_mesh_of(m: Option<[Vec<Instance>; 6]>, refs: ChunkRefs) -> bool {
    match m {
        None => forall|a: int| 0 <= a < 6 ==> #[trigger] mesh_faces(refs, a).len() == 0,
        Some(inst) => (exists|a: int| 0 <= a < 6 && #[trigger] mesh_faces(refs, a).len() > 0)
            && forall|a: int|
            0 <= a < 6 ==> #[trigger] instance_data(inst@[a]@).to_multiset() == mesh_faces(
                refs,
                a,
            ).to_multiset(),
    }
}

/// A new mesh entry: the mesh of the chunk at its position, as the world
/// holds it.
pub open spec fn entry_ok(world: WorldState, e: (IVec3, Option<[Vec<Instance>; 6]>)) -> bool {
    exists|refs: ChunkRefs| refs_of(world, key(e.0), refs) && is_mesh_of(e.1, refs)
}

/// A chunk to mesh: within `distance` of the centre, without a mesh yet,
/// and with its neighbourhood loaded.
pub open spec fn wanted(
    world: WorldState,
    meshed: Set<ChunkKey>,
    center: IVec3,
    distance: int,
    p: ChunkKey,
) -> bool {
    &&& within_distance(p, key(center), distance)
    &&& !meshed.contains(p)
    &&& neighbourhood_loaded(world, p)
}

/// `p` comes before `(x, y, z)` when the cube is visited with `x` slowest
/// and `z` fastest.
pub open spec fn visited_before(p: ChunkKey, x: int, y: int, z: int) -> bool {
    p.0 < x || (p.0 == x && (p.1 < y || (p.1 == y && p.2 < z)))
}

/// The wanted chunks before `(x, y, z)`.
pub open spec fn wanted_before(
    world: WorldState,
    meshed: Set<ChunkKey>,
    center: IVec3,
    distance: int,
    x: int,
    y: int,
    z: int,
) -> Set<ChunkKey> {
    Set::new(
        |p: ChunkKey| wanted(world, meshed, center, distance, p) && visited_before(p, x, y, z),
    )
}

/// The chunks to mesh from `(x, y, z)` on, in the order in which the cube
/// around `center` is visited: `x` slowest, then `y`, then `z`.
pub open spec fn mesh_scan(
    world: WorldState,
    meshed: Set<ChunkKey>,
    center: IVec3,
    distance: int,
    x: int,
    y: int,
    z: int,
) -> Seq<ChunkKey>
    decreases center.x + distance + 1 - x, center.y + distance + 1 - y, center.z + distance + 1 - z,
{
    if x > center.x + distance {
        Seq::empty()
    } else if y > center.y + distance {
        mesh_scan(world, meshed, center, distance, x + 1, center.y - distance, center.z - distance)
    } else if z > center.z + distance {
        mesh_scan(world, meshed, center, distance, x, y + 1, center.z - distance)
    } else {
        let p = (x as i32, y as i32, z as i32);
        (if !meshed.contains(p) && neighbourhood_loaded(world, p) {
            seq![p]
        } else {
            Seq::empty()
        }) + mesh_scan(world, meshed, center, distance, x, y, z + 1)
    }
}

/// The positions of a list of new meshes.
pub open spec fn mesh_keys(r: Seq<(IVec3, Option<[Vec<Instance>; 6]>)>) -> Seq<ChunkKey> {
    r.map_values(|e: (IVec3, Option<[Vec<Instance>; 6]>)| key(e.0))
}

/// The positions of a list of chunks.
pub open spec fn position_keys(r: Seq<IVec3>) -> Seq<ChunkKey> {
    r.map_values(|p: IVec3| key(p))
}

/// Whether no direction of a mesh has a face.
fn no_faces(instances: &[Vec<Instance>; 6]) -> (r: bool)
    ensures
        r == forall|a: int| 0 <= a < 6 ==> #[trigger] instances@[a]@.len() == 0,
{
    let mut a: usize = 0;
    while a < 6
        invariant
            a <= 6,
            forall|b: int| 0 <= b < a ==> #[trigger] instances@[b]@.len() == 0,
        decreases 6 - a,
    {
        if instances[a].len() != 0 {
            return false;
        }
        a += 1;
    }
    true
}

proof fn lemma_kept_mesh(m: Option<[Vec<Instance>; 6]>, inst: [Vec<Instance>; 6], refs: ChunkRefs)
    requires
        forall|a: int|
            0 <= a < 6 ==> #[trigger] instance_data(inst@[a]@).to_multiset() == mesh_faces(
                refs,
                a,
            ).to_multiset(),
        m == (if forall|a: int| 0 <= a < 6 ==> #[trigger] inst@[a]@.len() == 0 {
            None
        } else {
            Some(inst)
        }),
    ensures
        is_mesh_of(m, refs),
{
    assert forall|a: int| 0 <= a < 6 implies #[trigger] mesh_faces(refs, a).len()
        == inst@[a]@.len() by {
        instance_data(inst@[a]@).to_multiset_ensures();
        mesh_faces(refs, a).to_multiset_ensures();
    }
    if m is Some {
        let a = choose|a: int| 0 <= a < 6 && !(#[trigger] inst@[a]@.len() == 0);
        assert(mesh_faces(refs, a).len() > 0);
    }
}

/// The chunks the renderer holds a mesh of (an empty mesh counts).
pub struct MeshedChunks {
    meshed: PositionSet,
}

impl MeshedChunks {
    /// The positions with a mesh.
    pub closed spec fn positions(&self) -> Set<ChunkKey> {
        position_set_contents(self.meshed)
    }

    /// No chunk has a mesh.
    pub fn new() -> (r: MeshedChunks)
        ensures
            r.positions() == Set::<ChunkKey>::empty(),
    {
        MeshedChunks { meshed: PositionSet::new() }
    }

    /// Whether the chunk at `p` has a mesh.
    pub fn contains(&self, p: IVec3) -> (r: bool)
        ensures
            r == self.positions().contains(key(p)),
    {
        self.meshed.contains((p.x, p.y, p.z))
    }

    /// Forgets the meshes of the chunks that are no longer loaded, and
    /// lists those chunks, each once.
    pub fn drop_unloaded(&mut self, world: &WorldState) -> (r: Vec<IVec3>)
        ensures
            final(self).positions() == old(self).positions().filter(
                |p: ChunkKey| world.loaded().contains_key(p),
            ),
            position_keys(r@).no_duplicates(),
            position_keys(r@).to_set() == old(self).positions().filter(
                |p: ChunkKey| !world.loaded().contains_key(p),
            ),
    {
        let entries = self.meshed.entries();
        let ghost orig = self.positions();
        let mut dropped: Vec<IVec3> = Vec::new();
        let mut e: usize = 0;
        while e < entries.len()
            invariant
                e <= entries.len(),
                orig == old(self).positions(),
                forall|i: int| 0 <= i < entries.len() ==> orig.contains(#[trigger] entries@[i]),
                forall|i: int, j: int|
                    0 <= i < j < entries.len() ==> #[trigger] entries@[i] != #[trigger] entries@[j],
                forall|k: ChunkKey|
                    orig.contains(k) ==> exists|i: int| 0 <= i < entries.len() && #[trigger] entries@[i] == k,
                position_keys(dropped@).no_duplicates(),
                forall|i: int|
                    0 <= i < dropped.len() ==> exists|j: int|
                        0 <= j < e && entries@[j] == #[trigger] position_keys(dropped@)[i],
                position_keys(dropped@).to_set() == Set::new(
                    |k: ChunkKey|
                        exists|j: int|
                            0 <= j < e && #[trigger] entries@[j] == k && !world.loaded().contains_key(k),
                ),
                self.positions() == orig.difference(position_keys(dropped@).to_set()),
            decreases entries.len() - e,
        {
            let k = entries[e];
            let p = IVec3::new(k.0, k.1, k.2);
            let ghost before = position_keys(dropped@);
            if !world.is_loaded(p) {
                self.meshed.remove(k);
                dropped.push(p);
                proof {
                    assert(position_keys(dropped@) =~= before.push(k));
                    assert(!before.contains(k)) by {
                        if before.contains(k) {
                            let i = choose|i: int| 0 <= i < before.len() && before[i] == k;
                            let j = choose|j: int| 0 <= j < e && entries@[j] == #[trigger] position_keys(
                                dropped@,
                            )[i];
                            assert(position_keys(dropped@)[i] == before[i]);
                        }
                    }
                    before.lemma_push_to_set_commute(k);
                    assert forall|i: int| 0 <= i < dropped.len() implies exists|j: int|
                        0 <= j < e + 1 && entries@[j] == #[trigger] position_keys(dropped@)[i] by {
                        if i < before.len() {
                            assert(position_keys(dropped@)[i] == before[i]);
                        } else {
                            assert(entries@[e as int] == position_keys(dropped@)[i]);
                        }
                    }
                    assert(position_keys(dropped@).to_set() =~= Set::new(
                        |k2: ChunkKey|
                            exists|j: int|
                                0 <= j < e + 1 && #[trigger] entries@[j] == k2
                                    && !world.loaded().contains_key(k2),
                    ));
                    assert(self.positions() =~= orig.difference(position_keys(dropped@).to_set()));
                }
            } else {
                proof {
                    assert(position_keys(dropped@).to_set() =~= Set::new(
                        |k2: ChunkKey|
                            exists|j: int|
                                0 <= j < e + 1 && #[trigger] entries@[j] == k2
                                    && !world.loaded().contains_key(k2),
                    ));
                }
            }
            e += 1;
        }
        proof {
            assert(position_keys(dropped@).to_set() =~= orig.filter(
                |p: ChunkKey| !world.loaded().contains_key(p),
            ));
            assert(self.positions() =~= orig.filter(|p: ChunkKey| world.loaded().contains_key(p)));
        }
        dropped
    }
    /// Meshes the chunks within `distance` of `center` (on every axis) that
    /// have no mesh yet and whose neighbourhood is loaded, in the order in
    /// which the cube is visited (`x` slowest, `z` fastest); each comes back
    /// with its mesh, or with nothing when it has no face, and now counts as
    /// meshed.
    pub fn mesh_missing(&mut self, world: &WorldState, center: IVec3, distance: i32) -> (r: Vec<
        (IVec3, Option<[Vec<Instance>; 6]>),
    >)
        requires
            load_area_fits(center, distance + 1),
        ensures
            mesh_keys(r@) == mesh_scan(
                *world,
                old(self).positions(),
                center,
                distance as int,
                center.x - distance,
                center.y - distance,
                center.z - distance,
            ),
            mesh_keys(r@).no_duplicates(),
            mesh_keys(r@).to_set() == Set::new(
                |p: ChunkKey| wanted(*world, old(self).positions(), center, distance as int, p),
            ),
            forall|i: int| 0 <= i < r.len() ==> entry_ok(*world, #[trigger] r@[i]),
            final(self).positions() == old(self).positions() + mesh_keys(r@).to_set(),
    {
        let ghost orig = self.positions();
        let ghost d = distance as int;
        let ghost full = mesh_scan(*world, orig, center, d, center.x - d, center.y - d, center.z - d);
        let mut out: Vec<(IVec3, Option<[Vec<Instance>; 6]>)> = Vec::new();
        let d64 = distance as i64;
        let mut x_off: i64 = -d64;
        proof {
            assert(wanted_before(*world, orig, center, d, center.x - d, center.y - d, center.z - d)
                =~= Set::empty());
        }
        while x_off <= d64
            invariant
                d == distance,
                d64 == d,
                -d <= x_off,
                d >= 0 ==> x_off <= d + 1,
                load_area_fits(center, d + 1),
                orig == old(self).positions(),
                mesh_keys(out@).no_duplicates(),
                mesh_keys(out@) + mesh_scan(*world, orig, center, d, center.x + x_off, center.y - d, center.z - d) == full,
                mesh_keys(out@).to_set() == wanted_before(
                    *world,
                    orig,
                    center,
                    d,
                    center.x + x_off,
                    center.y - d,
                    center.z - d,
                ),
                forall|i: int| 0 <= i < out.len() ==> entry_ok(*world, #[trigger] out@[i]),
                self.positions() == orig + mesh_keys(out@).to_set(),
            decreases d64 + 1 - x_off,
        {
            let x = (center.x as i64 + x_off) as i32;
            let mut y_off: i64 = -d64;
            proof {
                assert(wanted_before(*world, orig, center, d, center.x + x_off, center.y - d, center.z - d)
                    =~= wanted_before(*world, orig, center, d, x as int, center.y + y_off, center.z - d));
            }
            while y_off <= d64
                invariant
                    d == distance,
                    d64 == d,
                    -d <= x_off <= d,
                    -d <= y_off <= d + 1,
                    x == center.x + x_off,
                    load_area_fits(center, d + 1),
                    orig == old(self).positions(),
                    mesh_keys(out@).no_duplicates(),
                    mesh_keys(out@) + mesh_scan(*world, orig, center, d, x as int, center.y + y_off, center.z - d) == full,
                    mesh_keys(out@).to_set() == wanted_before(
                        *world,
                        orig,
                        center,
                        d,
                        x as int,
                        center.y + y_off,
                        center.z - d,
                    ),
                    forall|i: int| 0 <= i < out.len() ==> entry_ok(*world, #[trigger] out@[i]),
                    self.positions() == orig + mesh_keys(out@).to_set(),
                decreases d64 + 1 - y_off,
            {
                let y = (center.y as i64 + y_off) as i32;
                let mut z_off: i64 = -d64;
                while z_off <= d64
                    invariant
                        d == distance,
                        d64 == d,
                        -d <= x_off <= d,
                        -d <= y_off <= d,
                        -d <= z_off <= d + 1,
                        x == center.x + x_off,
                        y == center.y + y_off,
                        load_area_fits(center, d + 1),
                        orig == old(self).positions(),
                        mesh_keys(out@).no_duplicates(),
                        mesh_keys(out@) + mesh_scan(*world, orig, center, d, x as int, y as int, center.z + z_off) == full,
                        mesh_keys(out@).to_set() == wanted_before(
                            *world,
                            orig,
                            center,
                            d,
                            x as int,
                            y as int,
                            center.z + z_off,
                        ),
                        forall|i: int| 0 <= i < out.len() ==> entry_ok(*world, #[trigger] out@[i]),
                        self.positions() == orig + mesh_keys(out@).to_set(),
                    decreases d64 + 1 - z_off,
                {
                    let z = (center.z as i64 + z_off) as i32;
                    let pos = IVec3::new(x, y, z);
                    let k = (x, y, z);
                    let ghost before = mesh_keys(out@);
                    let ghost out_before = out@;
                    assert(pos == pos_of(k));
                    let ghost next = wanted_before(*world, orig, center, d, x as int, y as int, z + 1);
                    let ghost rest = mesh_scan(*world, orig, center, d, x as int, y as int, z + 1);
                    assert(mesh_scan(*world, orig, center, d, x as int, y as int, z as int) == (if !orig.contains(
                        k,
                    ) && neighbourhood_loaded(*world, k) {
                        seq![k]
                    } else {
                        Seq::empty()
                    }) + rest);
                    if !self.meshed.contains(k) {
                        match world.get_chunk_refs(pos) {
                            Some(refs) => {
                                let ghost g = refs;
                                let instances = mesh(refs);
                                let empty = no_faces(&instances);
                                let entry = if empty {
                                    None
                                } else {
                                    Some(instances)
                                };
                                proof {
                                    lemma_kept_mesh(entry, instances, g);
                                    assert(refs_of(*world, k, g));
                                }
                                self.meshed.insert(k);
                                out.push((pos, entry));
                                proof {
                                    assert(mesh_keys(out@) =~= before.push(k));
                                    assert(!before.contains(k)) by {
                                        if before.contains(k) {
                                            let i = choose|i: int| 0 <= i < before.len() && before[i] == k;
                                            assert(before.to_set().contains(k));
                                        }
                                    }
                                    before.lemma_push_to_set_commute(k);
                                    assert(wanted(*world, orig, center, d, k));
                                    assert(mesh_keys(out@).to_set() =~= next);
                                    assert(mesh_keys(out@) + rest =~= full);
                                    assert(self.positions() =~= orig + mesh_keys(out@).to_set());
                                    assert forall|i: int| 0 <= i < out.len() implies entry_ok(
                                        *world,
                                        #[trigger] out@[i],
                                    ) by {
                                        if i < before.len() {
                                            assert(out@[i] == out_before[i]);
                                            assert(entry_ok(*world, out_before[i]));
                                        } else {
                                            assert(refs_of(*world, key(out@[i].0), g));
                                            assert(is_mesh_of(out@[i].1, g));
                                        }
                                    }
                                }
                            },
                            None => {
                                proof {
                                    assert(!neighbourhood_loaded(*world, k));
                                    assert(mesh_keys(out@).to_set() =~= next);
                                    assert(mesh_keys(out@) + rest =~= full);
                                }
                            },
                        }
                    } else {
                        proof {
                            assert(orig.contains(k)) by {
                                if !orig.contains(k) {
                                    assert(mesh_keys(out@).to_set().contains(k));
                                }
                            }
                            assert(mesh_keys(out@).to_set() =~= next);
                            assert(mesh_keys(out@) + rest =~= full);
                        }
                    }
                    z_off += 1;
                }
                proof {
                    assert(mesh_keys(out@).to_set() =~= wanted_before(
                        *world,
                        orig,
                        center,
                        d,
                        x as int,
                        center.y + y_off + 1,
                        center.z - d,
                    ));
                    assert(mesh_scan(*world, orig, center, d, x as int, y as int, center.z + z_off)
                        == mesh_scan(*world, orig, center, d, x as int, y + 1, center.z - d));
                }
                y_off += 1;
            }
            proof {
                assert(mesh_keys(out@).to_set() =~= wanted_before(
                    *world,
                    orig,
                    center,
                    d,
                    center.x + x_off + 1,
                    center.y - d,
                    center.z - d,
                ));
                assert(mesh_scan(*world, orig, center, d, x as int, center.y + y_off, center.z - d)
                    == mesh_scan(*world, orig, center, d, x + 1, center.y - d, center.z - d));
            }
            x_off += 1;
        }
        proof {
            assert(mesh_keys(out@) =~= full);
            assert(mesh_keys(out@).to_set() =~= Set::new(
                |p: ChunkKey| wanted(*world, orig, center, d, p),
            ));
        }
        out
    }
}

/// The number of instances of each direction of a mesh, as the renderer
/// counts them (in 32 bits).
pub open spec fn face_counts_of(m: [Vec<Instance>; 6]) -> Seq<u32> {
    Seq::new(6, |a: int| m@[a]@.len() as u32)
}

/// The instances of the first `a` directions of a mesh, each with the
/// number `id` of its chunk.
pub open spec fn direction_instances(m: [Vec<Instance>; 6], a: int, id: u32) -> Seq<(u64, u32)>
    decreases a,
{
    if a <= 0 {
        Seq::empty()
    } else {
        direction_instances(m, a - 1, id) + m@[a - 1]@.map_values(|i: Instance| (i.0, id))
    }
}

/// The instances of the first `n` meshes, direction by direction, each
/// with the number of its chunk: its place in the list, in 32 bits.
pub open spec fn packed_upto(meshes: Seq<(IVec3, &[Vec<Instance>; 6])>, n: int) -> Seq<(u64, u32)>
    decreases n,
{
    if n <= 0 {
        Seq::empty()
    } else {
        packed_upto(meshes, n - 1) + direction_instances(*meshes[n - 1].1, 6, (n - 1) as u32)
    }
}

/// Lays out meshes for the renderer: every instance, chunk by chunk and
/// direction by direction, with the number of its chunk; and for every
/// chunk its position and how many instances each direction has.
pub fn pack_meshes(meshes: &Vec<(IVec3, &[Vec<Instance>; 6])>) -> (r: (
    Vec<(u64, u32)>,
    Vec<(IVec3, [u32; 6])>,
))
    ensures
        r.0@ == packed_upto(meshes@, meshes.len() as int),
        r.1.len() == meshes.len(),
        forall|c: int|
            0 <= c < meshes.len() ==> (#[trigger] r.1@[c]).0 == meshes@[c].0 && r.1@[c].1@
                == face_counts_of(*meshes@[c].1),
{
    let mut instances: Vec<(u64, u32)> = Vec::new();
    let mut chunks: Vec<(IVec3, [u32; 6])> = Vec::new();
    let mut c: usize = 0;
    while c < meshes.len()
        invariant
            c <= meshes.len(),
            instances@ == packed_upto(meshes@, c as int),
            chunks.len() == c,
            forall|d: int|
                0 <= d < c ==> (#[trigger] chunks@[d]).0 == meshes@[d].0 && chunks@[d].1@
                    == face_counts_of(*meshes@[d].1),
        decreases meshes.len() - c,
    {
        let (pos, mesh) = meshes[c];
        let id = c as u32;
        let mut face_counts = [0u32; 6];
        let ghost start = instances@;
        let mut a: usize = 0;
        while a < 6
            invariant
                a <= 6,
                c < meshes.len(),
                id == c as u32,
                *mesh == *meshes@[c as int].1,
                instances@ == start + direction_instances(*mesh, a as int, id),
                forall|b: int| 0 <= b < a ==> #[trigger] face_counts@[b] == mesh@[b]@.len() as u32,
            decreases 6 - a,
        {
            let direction = &mesh[a];
            let ghost before = instances@;
            let mut k: usize = 0;
            while k < direction.len()
                invariant
                    k <= direction.len(),
                    *direction == mesh@[a as int],
                    instances@ == before + direction@.take(k as int).map_values(
                        |i: Instance| (i.0, id),
                    ),
                decreases direction.len() - k,
            {
                instances.push((direction[k].0, id));
                proof {
                    assert(direction@.take(k + 1).map_values(|i: Instance| (i.0, id))
                        =~= direction@.take(k as int).map_values(|i: Instance| (i.0, id)).push(
                        (direction@[k as int].0, id),
                    ));
                }
                k += 1;
            }
            face_counts[a] = direction.len() as u32;
            proof {
                assert(direction@.take(direction.len() as int) =~= direction@);
                assert(instances@ =~= start + direction_instances(*mesh, a + 1, id));
            }
            a += 1;
        }
        chunks.push((pos, face_counts));
        proof {
            assert(face_counts@ =~= face_counts_of(*mesh));
            assert(instances@ =~= packed_upto(meshes@, c + 1));
        }
        c += 1;
    }
    (instances, chunks)
}

} // verus!
