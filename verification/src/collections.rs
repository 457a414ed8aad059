//! The hash maps and sets of `hashbrown` that the mesher and the world keep,
//! each behind a small set of methods whose contracts speak of the contents.
use std::sync::Arc;

use vstd::prelude::*;

use crate::chunk::Chunk;

verus! {

/// A key of the face-layer map: texture, ambient occlusion, layer.
pub type LayerKey = (u32, u32, u32);

/// Face layers of one direction, grouped by texture, occlusion and layer
/// (a `hashbrown` map from the group to its 32x32 layer of faces).
#[verifier::external_body]
pub struct FaceLayers {
    map: hashbrown::HashMap<LayerKey, [u32; 32]>,
}

/// What a `FaceLayers` holds: each key with its layer.
pub uninterp spec fn face_layers_contents(m: FaceLayers) -> Map<LayerKey, Seq<u32>>;

impl FaceLayers {
    /// `hashbrown::HashMap::new`: an empty map.
    #[verifier::external_body]
    pub(crate) fn new() -> (r: FaceLayers)
        ensures
            face_layers_contents(r) =~= Map::empty(),
    {
        FaceLayers { map: hashbrown::HashMap::new() }
    }

    /// `hashbrown::HashMap::get`: the layer stored under `key`, if any.
    #[verifier::external_body]
    pub(crate) fn get(&self, key: LayerKey) -> (r: Option<[u32; 32]>)
        ensures
            match r {
                Some(layer) => face_layers_contents(*self).contains_key(key)
                    && face_layers_contents(*self)[key] == layer@,
                None => !face_layers_contents(*self).contains_key(key),
            },
    {
        self.map.get(&key).copied()
    }

    /// `hashbrown::HashMap::insert`: stores `layer` under `key`, replacing
    /// what was there.
    #[verifier::external_body]
    pub(crate) fn insert(&mut self, key: LayerKey, layer: [u32; 32])
        ensures
            face_layers_contents(*final(self)) == face_layers_contents(*old(self)).insert(
                key,
                layer@,
            ),
    {
        self.map.insert(key, layer);
    }

    /// `hashbrown::HashMap::iter`: every entry once, in the map's own order.
    #[verifier::external_body]
    pub(crate) fn entries(&self) -> (r: Vec<(LayerKey, [u32; 32])>)
        ensures
            forall|i: int|
                0 <= i < r.len() ==> face_layers_contents(*self).contains_key(#[trigger] r@[i].0)
                    && face_layers_contents(*self)[r@[i].0] == r@[i].1@,
            forall|i: int, j: int| 0 <= i < j < r.len() ==> #[trigger] r@[i].0 != #[trigger] r@[j].0,
            forall|k: LayerKey|
                face_layers_contents(*self).contains_key(k) ==> exists|i: int|
                    0 <= i < r.len() && #[trigger] r@[i].0 == k,
    {
        self.map.iter().map(|(k, v)| (*k, *v)).collect()
    }
}


/// A chunk position in the chunk grid, as a key.
pub type ChunkKey = (i32, i32, i32);

/// The loaded chunks of the world (a `hashbrown` map from chunk position to
/// a shared chunk).
#[verifier::external_body]
pub struct ChunkMap {
    map: hashbrown::HashMap<ChunkKey, Arc<Chunk>>,
}

/// What a `ChunkMap` holds: each position with its chunk.
pub uninterp spec fn chunk_map_contents(m: ChunkMap) -> Map<ChunkKey, Chunk>;

impl ChunkMap {
    /// `hashbrown::HashMap::new`: an empty map.
    #[verifier::external_body]
    pub(crate) fn new() -> (r: ChunkMap)
        ensures
            chunk_map_contents(r) =~= Map::empty(),
    {
        ChunkMap { map: hashbrown::HashMap::new() }
    }

    /// `hashbrown::HashMap::get`: the chunk at `key`, if any, shared.
    #[verifier::external_body]
    pub(crate) fn get(&self, key: ChunkKey) -> (r: Option<Arc<Chunk>>)
        ensures
            match r {
                Some(chunk) => chunk_map_contents(*self).contains_key(key) && *chunk
                    == chunk_map_contents(*self)[key],
                None => !chunk_map_contents(*self).contains_key(key),
            },
    {
        self.map.get(&key).cloned()
    }

    /// `hashbrown::HashMap::contains_key`.
    #[verifier::external_body]
    pub(crate) fn contains_key(&self, key: ChunkKey) -> (r: bool)
        ensures
            r == chunk_map_contents(*self).contains_key(key),
    {
        self.map.contains_key(&key)
    }

    /// `hashbrown::HashMap::insert`: stores `chunk` at `key`, replacing what
    /// was there.
    #[verifier::external_body]
    pub(crate) fn insert(&mut self, key: ChunkKey, chunk: Arc<Chunk>)
        ensures
            chunk_map_contents(*final(self)) == chunk_map_contents(*old(self)).insert(key, *chunk),
    {
        self.map.insert(key, chunk);
    }

    /// `hashbrown::HashMap::remove`: drops the chunk at `key`, if any.
    #[verifier::external_body]
    pub(crate) fn remove(&mut self, key: ChunkKey)
        ensures
            chunk_map_contents(*final(self)) == chunk_map_contents(*old(self)).remove(key),
    {
        self.map.remove(&key);
    }

    /// `hashbrown::HashMap::iter`: every entry once, in the map's own order.
    #[verifier::external_body]
    pub(crate) fn entries(&self) -> (r: Vec<(ChunkKey, Arc<Chunk>)>)
        ensures
            forall|i: int|
                0 <= i < r.len() ==> chunk_map_contents(*self).contains_key(#[trigger] r@[i].0)
                    && chunk_map_contents(*self)[r@[i].0] == *r@[i].1,
            forall|i: int, j: int| 0 <= i < j < r.len() ==> #[trigger] r@[i].0 != #[trigger] r@[j].0,
            forall|k: ChunkKey|
                chunk_map_contents(*self).contains_key(k) ==> exists|i: int|
                    0 <= i < r.len() && #[trigger] r@[i].0 == k,
    {
        self.map.iter().map(|(k, v)| (*k, v.clone())).collect()
    }
}

/// A set of chunk positions (a `hashbrown` set).
#[verifier::external_body]
pub struct PositionSet {
    set: hashbrown::HashSet<ChunkKey>,
}

/// What a `PositionSet` holds.
pub uninterp spec fn position_set_contents(s: PositionSet) -> Set<ChunkKey>;

impl PositionSet {
    /// `hashbrown::HashSet::new`: an empty set.
    #[verifier::external_body]
    pub(crate) fn new() -> (r: PositionSet)
        ensures
            position_set_contents(r) =~= Set::empty(),
    {
        PositionSet { set: hashbrown::HashSet::new() }
    }

    /// `hashbrown::HashSet::contains`.
    #[verifier::external_body]
    pub(crate) fn contains(&self, key: ChunkKey) -> (r: bool)
        ensures
            r == position_set_contents(*self).contains(key),
    {
        self.set.contains(&key)
    }

    /// `hashbrown::HashSet::insert`: adds `key`; says whether it was absent.
    #[verifier::external_body]
    pub(crate) fn insert(&mut self, key: ChunkKey) -> (r: bool)
        ensures
            position_set_contents(*final(self)) == position_set_contents(*old(self)).insert(key),
            r == !position_set_contents(*old(self)).contains(key),
    {
        self.set.insert(key)
    }

    /// `hashbrown::HashSet::remove`: takes `key` out; says whether it was
    /// there.
    #[verifier::external_body]
    pub(crate) fn remove(&mut self, key: ChunkKey) -> (r: bool)
        ensures
            position_set_contents(*final(self)) == position_set_contents(*old(self)).remove(key),
            r == position_set_contents(*old(self)).contains(key),
    {
        self.set.remove(&key)
    }

    /// `hashbrown::HashSet::iter`: every position once, in the set's own
    /// order.
    #[verifier::external_body]
    pub(crate) fn entries(&self) -> (r: Vec<ChunkKey>)
        ensures
            forall|i: int| 0 <= i < r.len() ==> position_set_contents(*self).contains(#[trigger] r@[i]),
            forall|i: int, j: int| 0 <= i < j < r.len() ==> #[trigger] r@[i] != #[trigger] r@[j],
            forall|k: ChunkKey|
                position_set_contents(*self).contains(k) ==> exists|i: int|
                    0 <= i < r.len() && #[trigger] r@[i] == k,
    {
        self.set.iter().copied().collect()
    }

    /// `hashbrown::HashSet::retain`, keeping the positions within
    /// `render_distance` chunks of `center` on every axis.
    #[verifier::external_body]
    pub(crate) fn retain_within(&mut self, center: ChunkKey, render_distance: i32)
        ensures
            position_set_contents(*final(self)) == position_set_contents(*old(self)).filter(
                |p: ChunkKey| within_distance(p, center, render_distance as int),
            ),
    {
        self.set.retain(|p| is_within_distance(p, center, render_distance))
    }
}

/// `p` lies at most `distance` chunks from `center` on every axis.
pub open spec fn within_distance(p: ChunkKey, center: ChunkKey, distance: int) -> bool {
    &&& -distance <= p.0 - center.0 <= distance
    &&& -distance <= p.1 - center.1 <= distance
    &&& -distance <= p.2 - center.2 <= distance
}

/// Whether `p` lies at most `distance` chunks from `center` on every axis.
pub fn is_within_distance(p: &ChunkKey, center: ChunkKey, distance: i32) -> (r: bool)
    ensures
        r == within_distance(*p, center, distance as int),
{
    let dx = p.0 as i64 - center.0 as i64;
    let dy = p.1 as i64 - center.1 as i64;
    let dz = p.2 as i64 - center.2 as i64;
    let d = distance as i64;
    -d <= dx && dx <= d && -d <= dy && dy <= d && -d <= dz && dz <= d
}

} // verus!
